//! Shannon–Fano coding of byte strings.
//!
//! The symbols that occur are sorted by falling count (rising symbol on
//! equal counts) and split recursively into two runs of nearly equal total
//! count; the first run gets bit 0, the second bit 1.  The coded form is the
//! frame of `frame`: the packed code bits, the 256 counts, and the number of
//! bits in the last data byte.
use crate::bits::{bits_of, bv_clone, bv_eq, bv_get, bv_len, bv_new, bv_pop, bv_push, bv_to_bytes};
use crate::frame::{
    code_bits, code_view, count_freqs, count_nonzero, data_bits, frame, freq_total, freqs_of,
    lemma_code_bits_len, lemma_code_bits_push, lemma_code_view_insert, lemma_frame, lemma_freqs_total,
    lemma_occurrences_le, lemma_occurs, push_table, read_data_bits, read_freqs, read_table,
};
use bit_vec::BitVec;
use vstd::prelude::*;

verus! {

// ---------------------------------------------------------------------------
// Sorting the counts
// ---------------------------------------------------------------------------

/// Whether entry `a` (symbol, count) comes before `b`: the higher count
/// first, the lower symbol first on equal counts.
pub open spec fn entry_before(a: (u8, u32), b: (u8, u32)) -> bool {
    a.1 > b.1 || (a.1 == b.1 && a.0 < b.0)
}

/// `s` with `x` inserted before the first entry that `x` comes before.
pub open spec fn insert_entry(s: Seq<(u8, u32)>, x: (u8, u32)) -> Seq<(u8, u32)>
    decreases s.len(),
{
    if s.len() == 0 {
        seq![x]
    } else if entry_before(x, s[0]) {
        seq![x] + s
    } else {
        seq![s[0]] + insert_entry(s.drop_first(), x)
    }
}

/// The entries `(i, freqs[i])` with `freqs[i] != 0` and `i < n`, in the
/// order of `entry_before`.
pub open spec fn sorted_entries(freqs: Seq<u32>, n: int) -> Seq<(u8, u32)>
    decreases n,
{
    if n <= 0 {
        Seq::<(u8, u32)>::empty()
    } else {
        let s = sorted_entries(freqs, n - 1);
        if freqs[n - 1] != 0 {
            insert_entry(s, ((n - 1) as u8, freqs[n - 1]))
        } else {
            s
        }
    }
}

/// The place where `insert_entry` puts `x`.
pub open spec fn insert_pos(s: Seq<(u8, u32)>, x: (u8, u32)) -> int
    decreases s.len(),
{
    if s.len() == 0 || entry_before(x, s[0]) {
        0
    } else {
        1 + insert_pos(s.drop_first(), x)
    }
}

proof fn lemma_insert_pos(s: Seq<(u8, u32)>, x: (u8, u32))
    ensures
        0 <= insert_pos(s, x) <= s.len(),
        forall|q: int| 0 <= q < insert_pos(s, x) ==> !entry_before(x, #[trigger] s[q]),
        insert_pos(s, x) < s.len() ==> entry_before(x, s[insert_pos(s, x)]),
    decreases s.len(),
{
    if s.len() > 0 && !entry_before(x, s[0]) {
        lemma_insert_pos(s.drop_first(), x);
        assert forall|q: int| 0 <= q < insert_pos(s, x) implies !entry_before(x, #[trigger] s[q]) by {
            if q > 0 {
                assert(s[q] == s.drop_first()[q - 1]);
            }
        }
    }
}

/// Inserting at the first entry that `x` comes before.
proof fn lemma_insert_at(s: Seq<(u8, u32)>, x: (u8, u32), p: int)
    requires
        0 <= p <= s.len(),
        forall|q: int| 0 <= q < p ==> !entry_before(x, #[trigger] s[q]),
        p < s.len() ==> entry_before(x, s[p]),
    ensures
        insert_entry(s, x) == s.insert(p, x),
    decreases p,
{
    if p == 0 {
        assert(s.insert(0, x) =~= seq![x] + s);
        if s.len() == 0 {
            assert(seq![x] + s =~= seq![x]);
        }
    } else {
        let t = s.drop_first();
        assert(!entry_before(x, s[0]));
        assert forall|q: int| 0 <= q < p - 1 implies !entry_before(x, #[trigger] t[q]) by {
            assert(t[q] == s[q + 1]);
        }
        lemma_insert_at(t, x, p - 1);
        assert(s.insert(p, x) =~= seq![s[0]] + t.insert(p - 1, x));
    }
}

/// What `sorted_entries` holds: each symbol with a nonzero count once,
/// with its count; their counts add up to the total count.
pub proof fn lemma_sorted_entries(freqs: Seq<u32>, n: int)
    requires
        0 <= n <= freqs.len(),
        n <= 256,
    ensures
        sorted_entries(freqs, n).len() == count_nonzero(freqs, n),
        sorted_entries(freqs, n).len() <= n,
        forall|k: int|
            #![trigger sorted_entries(freqs, n)[k]]
            0 <= k < sorted_entries(freqs, n).len() ==> {
                let e = sorted_entries(freqs, n)[k];
                &&& e.0 < n
                &&& e.1 == freqs[e.0 as int]
                &&& e.1 != 0
            },
        forall|k1: int, k2: int|
            0 <= k1 < k2 < sorted_entries(freqs, n).len() ==> #[trigger] sorted_entries(freqs, n)[k1].0
                != #[trigger] sorted_entries(freqs, n)[k2].0,
        forall|sym: int|
            0 <= sym < n && freqs[sym] != 0 ==> exists|k: int|
                0 <= k < sorted_entries(freqs, n).len() && #[trigger] sorted_entries(freqs, n)[k].0 == sym,
        total(sorted_entries(freqs, n)) == freq_total(freqs, n),
        forall|k1: int, k2: int|
            0 <= k1 < k2 < sorted_entries(freqs, n).len() ==> entry_before(
                #[trigger] sorted_entries(freqs, n)[k1],
                #[trigger] sorted_entries(freqs, n)[k2],
            ),
    decreases n,
{
    if n > 0 {
        lemma_sorted_entries(freqs, n - 1);
        let s = sorted_entries(freqs, n - 1);
        if freqs[n - 1] != 0 {
            let x = ((n - 1) as u8, freqs[n - 1]);
            let p = insert_pos(s, x);
            lemma_insert_pos(s, x);
            lemma_insert_at(s, x, p);
            let r = sorted_entries(freqs, n);
            assert(r == s.insert(p, x));
            assert forall|k: int| 0 <= k < r.len() implies (k < p ==> r[k] == s[k]) && (k == p ==> r[k] == x)
                && (k > p ==> r[k] == s[k - 1]) by {}
            assert forall|k1: int, k2: int| 0 <= k1 < k2 < r.len() implies #[trigger] r[k1].0
                != #[trigger] r[k2].0 by {
                if k1 != p && k2 != p {
                    let j1 = if k1 < p { k1 } else { k1 - 1 };
                    let j2 = if k2 < p { k2 } else { k2 - 1 };
                    assert(s[j1].0 != s[j2].0);
                } else if k1 == p {
                    let j2 = k2 - 1;
                    assert(s[j2].0 < n - 1);
                } else {
                    assert(s[k1].0 < n - 1);
                }
            }
            assert forall|k1: int, k2: int| 0 <= k1 < k2 < r.len() implies entry_before(
                #[trigger] r[k1],
                #[trigger] r[k2],
            ) by {
                if k1 < p && k2 < p {
                    assert(entry_before(s[k1], s[k2]));
                } else if k1 < p && k2 == p {
                    assert(!entry_before(x, s[k1]));
                    assert(s[k1].0 < n - 1);
                } else if k1 < p {
                    assert(entry_before(s[k1], s[k2 - 1]));
                } else if k1 == p {
                    assert(entry_before(x, s[p]));
                    if k2 - 1 > p {
                        assert(entry_before(s[p], s[k2 - 1]));
                    }
                } else {
                    assert(entry_before(s[k1 - 1], s[k2 - 1]));
                }
            }
            assert forall|sym: int| 0 <= sym < n && freqs[sym] != 0 implies exists|k: int|
                0 <= k < r.len() && #[trigger] r[k].0 == sym by {
                if sym == n - 1 {
                    assert(r[p].0 == sym);
                } else {
                    let j = choose|j: int| 0 <= j < s.len() && #[trigger] s[j].0 == sym;
                    if j < p {
                        assert(r[j].0 == sym);
                    } else {
                        assert(r[j + 1].0 == sym);
                    }
                }
            }
            assert(total(r) == total(s) + x.1) by {
                lemma_total_concat(s.take(p), s.skip(p));
                lemma_total_concat(s.take(p).push(x), s.skip(p));
                assert(s.take(p) + s.skip(p) =~= s);
                assert(s.take(p).push(x).drop_last() =~= s.take(p));
                assert(r =~= s.take(p).push(x) + s.skip(p));
            }
        } else {
            let s = sorted_entries(freqs, n - 1);
            assert forall|sym: int| 0 <= sym < n && freqs[sym] != 0 implies exists|k: int|
                0 <= k < s.len() && #[trigger] s[k].0 == sym by {
                assert(sym < n - 1);
            }
        }
    }
}

/// Sorts the symbols of nonzero count by falling count, rising symbol on
/// equal counts (what a stable sort by falling count of the symbols in
/// rising order gives).
fn sort_freqs(freqs: &[u32; 256]) -> (r: Vec<(u8, u32)>)
    ensures
        r@ == sorted_entries(freqs@, 256),
        forall|k1: int, k2: int| 0 <= k1 < k2 < r@.len() ==> entry_before(#[trigger] r@[k1], #[trigger] r@[k2]),
        forall|k: int|
            #![trigger r@[k]]
            0 <= k < r@.len() ==> r@[k].1 == freqs@[r@[k].0 as int] && r@[k].1 != 0,
        forall|sym: int| 0 <= sym < 256 && freqs@[sym] != 0 ==> exists|k: int| 0 <= k < r@.len() && #[trigger] r@[k].0 == sym,
        symbols_distinct(r@),
        r@.len() <= 256,
{
    proof {
        lemma_sorted_entries(freqs@, 256);
    }
    let mut v: Vec<(u8, u32)> = Vec::new();
    let mut i: usize = 0;
    while i < 256
        invariant
            i <= 256,
            freqs@.len() == 256,
            v@ == sorted_entries(freqs@, i as int),
        decreases 256 - i,
    {
        if freqs[i] != 0 {
            let x = (i as u8, freqs[i]);
            let mut p: usize = 0;
            while p < v.len() && !(x.1 > v[p].1 || (x.1 == v[p].1 && x.0 < v[p].0))
                invariant
                    p <= v@.len(),
                    forall|q: int| 0 <= q < p ==> !entry_before(x, #[trigger] v@[q]),
                decreases v@.len() - p,
            {
                p += 1;
            }
            proof {
                lemma_insert_at(v@, x, p as int);
            }
            v.insert(p, x);
        }
        i += 1;
    }
    v
}

// ---------------------------------------------------------------------------
// Splitting a run of entries
// ---------------------------------------------------------------------------

/// Sum of the counts of the entries `s`.
pub open spec fn total(s: Seq<(u8, u32)>) -> int
    decreases s.len(),
{
    if s.len() == 0 {
        0
    } else {
        total(s.drop_last()) + s.last().1
    }
}

pub proof fn lemma_total_concat(a: Seq<(u8, u32)>, b: Seq<(u8, u32)>)
    ensures
        total(a + b) == total(a) + total(b),
    decreases b.len(),
{
    if b.len() == 0 {
        assert(a + b =~= a);
    } else {
        lemma_total_concat(a, b.drop_last());
        assert((a + b).drop_last() =~= a + b.drop_last());
    }
}

proof fn lemma_total_single(e: (u8, u32))
    ensures
        total(seq![e]) == e.1,
{
    assert(seq![e].drop_last() =~= Seq::<(u8, u32)>::empty());
    assert(total(Seq::<(u8, u32)>::empty()) == 0);
}

proof fn lemma_total_nonneg(s: Seq<(u8, u32)>)
    ensures
        total(s) >= 0,
    decreases s.len(),
{
    if s.len() > 0 {
        lemma_total_nonneg(s.drop_last());
    }
}

/// Sum of the counts of the entries `f[a..b)`.
pub open spec fn range_sum(f: Seq<(u8, u32)>, a: int, b: int) -> int {
    total(f.subrange(a, b))
}

/// Sums over adjacent runs add up, and are not negative.
proof fn lemma_range_sum_split(f: Seq<(u8, u32)>, a: int, b: int, c: int)
    requires
        0 <= a <= b <= c <= f.len(),
    ensures
        range_sum(f, a, c) == range_sum(f, a, b) + range_sum(f, b, c),
        range_sum(f, a, b) >= 0,
        range_sum(f, b, c) >= 0,
{
    lemma_total_concat(f.subrange(a, b), f.subrange(b, c));
    assert(f.subrange(a, b) + f.subrange(b, c) =~= f.subrange(a, c));
    lemma_total_nonneg(f.subrange(a, b));
    lemma_total_nonneg(f.subrange(b, c));
}

/// The walk of `step_encode`: two ends move towards each other, the end
/// whose run has the smaller sum taking the next entry (the front one on a
/// tie); the place where they meet.
pub open spec fn split_walk(f: Seq<(u8, u32)>, i_first: int, i_last: int, sum_first: int, sum_last: int) -> int
    decreases i_last - i_first,
{
    if i_first >= i_last {
        i_first
    } else if sum_first > sum_last {
        split_walk(f, i_first, i_last - 1, sum_first, sum_last + f[i_last].1)
    } else {
        split_walk(f, i_first + 1, i_last, sum_first + f[i_first].1, sum_last)
    }
}

/// Where the run `f[from..=to]` is split: its first part is `f[from..mid)`.
pub open spec fn split(f: Seq<(u8, u32)>, from: int, to: int) -> int {
    split_walk(f, from, to, 0, 0)
}

pub proof fn lemma_split_walk(f: Seq<(u8, u32)>, i_first: int, i_last: int, sum_first: int, sum_last: int)
    requires
        i_first <= i_last,
    ensures
        i_first <= split_walk(f, i_first, i_last, sum_first, sum_last) <= i_last,
    decreases i_last - i_first,
{
    if i_first < i_last {
        if sum_first > sum_last {
            lemma_split_walk(f, i_first, i_last - 1, sum_first, sum_last + f[i_last].1);
        } else {
            lemma_split_walk(f, i_first + 1, i_last, sum_first + f[i_first].1, sum_last);
        }
    }
}

/// A run of two or more entries splits into two nonempty parts.
pub proof fn lemma_split(f: Seq<(u8, u32)>, from: int, to: int)
    requires
        from < to,
    ensures
        from < split(f, from, to) <= to,
{
    lemma_split_walk(f, from + 1, to, f[from].1 as int, 0);
}

proof fn lemma_range_sum_one(f: Seq<(u8, u32)>, i: int)
    requires
        0 <= i < f.len(),
    ensures
        range_sum(f, i, i + 1) == f[i].1,
{
    assert(f.subrange(i, i + 1) =~= seq![f[i]]);
    lemma_total_single(f[i]);
}

/// The walk keeps the two ends balanced up to their last entries: the front
/// run without the entry it took last is no heavier than the back run, and
/// the back run without the entry it took last is lighter than the front
/// run.
proof fn lemma_split_walk_balance(
    f: Seq<(u8, u32)>,
    from: int,
    to: int,
    i: int,
    j: int,
    sum_first: int,
    sum_last: int,
)
    requires
        0 <= from <= i <= j <= to < f.len(),
        sum_first == range_sum(f, from, i),
        sum_last == range_sum(f, j + 1, to + 1),
        i > from ==> sum_first - f[i - 1].1 <= sum_last,
        j < to ==> sum_last - f[j + 1].1 < sum_first,
    ensures
        split_walk(f, i, j, sum_first, sum_last) > from ==> range_sum(f, from, split_walk(f, i, j, sum_first, sum_last))
            - f[split_walk(f, i, j, sum_first, sum_last) - 1].1 <= range_sum(
            f,
            split_walk(f, i, j, sum_first, sum_last),
            to + 1,
        ),
        split_walk(f, i, j, sum_first, sum_last) < to ==> range_sum(f, split_walk(f, i, j, sum_first, sum_last), to + 1)
            - f[split_walk(f, i, j, sum_first, sum_last)].1 - f[split_walk(f, i, j, sum_first, sum_last) + 1].1
            < range_sum(f, from, split_walk(f, i, j, sum_first, sum_last)),
    decreases j - i,
{
    if i >= j {
        lemma_range_sum_split(f, i, i + 1, to + 1);
        lemma_range_sum_one(f, i);
    } else if sum_first > sum_last {
        lemma_range_sum_split(f, j, j + 1, to + 1);
        lemma_range_sum_one(f, j);
        lemma_range_sum_split(f, from, i, j);
        lemma_split_walk_balance(f, from, to, i, j - 1, sum_first, sum_last + f[j].1);
    } else {
        lemma_range_sum_split(f, from, i, i + 1);
        lemma_range_sum_one(f, i);
        lemma_range_sum_split(f, j + 1, j + 1, to + 1);
        lemma_split_walk_balance(f, from, to, i + 1, j, sum_first + f[i].1, sum_last);
    }
}

/// The split of a run `f[from..=to]` of two or more entries balances its two
/// parts up to the entries at the cut: the first part `f[from..mid)`
/// without its last entry is no heavier than the second part
/// `f[mid..=to]`, and the second part without its first two entries is
/// lighter than the first part.
pub proof fn lemma_split_balanced(f: Seq<(u8, u32)>, from: int, to: int)
    requires
        0 <= from < to < f.len(),
    ensures
        range_sum(f, from, split(f, from, to)) - f[split(f, from, to) - 1].1 <= range_sum(
            f,
            split(f, from, to),
            to + 1,
        ),
        split(f, from, to) < to ==> range_sum(f, split(f, from, to), to + 1) - f[split(f, from, to)].1 - f[split(
            f,
            from,
            to,
        ) + 1].1 < range_sum(f, from, split(f, from, to)),
{
    lemma_split(f, from, to);
    assert(f.subrange(from, from) =~= Seq::<(u8, u32)>::empty());
    assert(f.subrange(to + 1, to + 1) =~= Seq::<(u8, u32)>::empty());
    lemma_split_walk_balance(f, from, to, from, to, 0, 0);
}

/// Whether no sum that `step_encode` forms on the run `f[from..=to]`, or on
/// the runs it splits into, exceeds `u32::MAX`.
pub open spec fn splits_fit(f: Seq<(u8, u32)>, from: int, to: int) -> bool
    decreases to - from,
{
    if from >= to {
        true
    } else {
        let mid = split(f, from, to);
        proof {
            lemma_split(f, from, to);
        }
        &&& split_fits(f, from, to)
        &&& splits_fit(f, from, mid - 1)
        &&& splits_fit(f, mid, to)
    }
}

/// A run whose counts add up to at most `u32::MAX` fits.
proof fn lemma_splits_fit(f: Seq<(u8, u32)>, from: int, to: int)
    requires
        0 <= from,
        to < f.len(),
        from <= to + 1,
        range_sum(f, from, to + 1) <= u32::MAX,
    ensures
        splits_fit(f, from, to),
    decreases to - from,
{
    if from < to {
        let mid = split(f, from, to);
        lemma_split(f, from, to);
        lemma_range_sum_split(f, from, mid, to + 1);
        lemma_range_sum_split(f, mid, mid + 1, to + 1);
        lemma_splits_fit(f, from, mid - 1);
        lemma_splits_fit(f, mid, to);
    }
}

/// Whether the two sums that `step_encode` forms on the run `f[from..=to]`
/// stay within `u32`.
pub open spec fn split_fits(f: Seq<(u8, u32)>, from: int, to: int) -> bool {
    &&& range_sum(f, from, split(f, from, to)) <= u32::MAX
    &&& range_sum(f, split(f, from, to) + 1, to + 1) <= u32::MAX
}

/// Finds where the run `freqs[from..=to]` is split; `None` where a sum it
/// keeps would pass `u32::MAX`.
fn step_encode(freqs: &Vec<(u8, u32)>, from: usize, to: usize) -> (r: Option<usize>)
    requires
        from <= to < freqs@.len(),
    ensures
        match r {
            Some(mid) => split_fits(freqs@, from as int, to as int) && mid == split(
                freqs@,
                from as int,
                to as int,
            ),
            None => !split_fits(freqs@, from as int, to as int),
        },
        r matches Some(mid) ==> (from == to ==> mid == from) && (from < to ==> from < mid <= to),
        from < to ==> (r matches Some(mid) ==> range_sum(freqs@, from as int, mid as int) - freqs@[mid - 1].1
            <= range_sum(freqs@, mid as int, to + 1) && (mid < to ==> range_sum(freqs@, mid as int, to + 1)
            - freqs@[mid as int].1 - freqs@[mid + 1].1 < range_sum(freqs@, from as int, mid as int))),
{
    let ghost f = freqs@;
    let ghost target = split(f, from as int, to as int);
    proof {
        if from < to {
            lemma_split(f, from as int, to as int);
            lemma_split_balanced(f, from as int, to as int);
        }
    }
    let mut sum_first: u32 = 0;
    let mut sum_last: u32 = 0;
    let mut i_first = from;
    let mut i_last = to;
    while i_first != i_last
        invariant
            f == freqs@,
            from <= i_first <= i_last <= to < f.len(),
            from <= target <= to,
            from < to ==> from < target,
            target == split(f, from as int, to as int),
            sum_first == range_sum(f, from as int, i_first as int),
            sum_last == range_sum(f, i_last + 1, to + 1),
            i_first <= target,
            target <= i_last + 1,
            split_walk(f, i_first as int, i_last as int, sum_first as int, sum_last as int) == target,
        decreases i_last - i_first,
    {
        if sum_first > sum_last {
            proof {
                lemma_split_walk(f, i_first as int, i_last - 1, sum_first as int, sum_last + f[i_last as int].1);
                lemma_range_sum_split(f, i_last as int, i_last + 1, to + 1);
                assert(target <= i_last - 1);
                lemma_range_sum_split(f, target + 1, i_last as int, to + 1);
                assert(f.subrange(i_last as int, i_last + 1) =~= seq![f[i_last as int]]);
                lemma_total_single(f[i_last as int]);
                assert(range_sum(f, i_last as int, i_last + 1) == f[i_last as int].1);
                assert(sum_last + f[i_last as int].1 == range_sum(f, i_last as int, to + 1));
            }
            if sum_last as u64 + freqs[i_last].1 as u64 > u32::MAX as u64 {
                return None;
            }
            sum_last += freqs[i_last].1;
            i_last -= 1;
        } else {
            proof {
                lemma_split_walk(f, i_first + 1, i_last as int, sum_first + f[i_first as int].1, sum_last as int);
                lemma_range_sum_split(f, from as int, i_first as int, i_first + 1);
                lemma_range_sum_split(f, from as int, i_first + 1, target);
                assert(f.subrange(i_first as int, i_first + 1) =~= seq![f[i_first as int]]);
                lemma_total_single(f[i_first as int]);
                assert(range_sum(f, i_first as int, i_first + 1) == f[i_first as int].1);
                assert(target >= i_first + 1);
                assert(sum_first + f[i_first as int].1 == range_sum(f, from as int, i_first + 1));
            }
            if sum_first as u64 + freqs[i_first].1 as u64 > u32::MAX as u64 {
                return None;
            }
            sum_first += freqs[i_first].1;
            i_first += 1;
        }
    }
    proof {
        lemma_range_sum_split(f, from as int, from as int, to + 1);
    }
    Some(i_first)
}

// ---------------------------------------------------------------------------
// Code words
// ---------------------------------------------------------------------------

/// The path from the root of the code tree of the run `f[from..=to]` to
/// its entry `j`: bit 0 into the first part of a split, bit 1 into the
/// second; empty for a run of one entry.
pub open spec fn word(f: Seq<(u8, u32)>, from: int, to: int, j: int) -> Seq<bool>
    decreases to - from,
{
    if from >= to {
        Seq::<bool>::empty()
    } else {
        let mid = split(f, from, to);
        proof {
            lemma_split(f, from, to);
        }
        if j < mid {
            seq![false] + word(f, from, mid - 1, j)
        } else {
            seq![true] + word(f, mid, to, j)
        }
    }
}

/// A code word is no longer than the run has entries beyond the first, and
/// not empty in a run of two or more entries.
pub proof fn lemma_word_len(f: Seq<(u8, u32)>, from: int, to: int, j: int)
    requires
        from <= j <= to,
    ensures
        word(f, from, to, j).len() <= to - from,
        from < to ==> word(f, from, to, j).len() >= 1,
    decreases to - from,
{
    if from < to {
        let mid = split(f, from, to);
        lemma_split(f, from, to);
        if j < mid {
            lemma_word_len(f, from, mid - 1, j);
        } else {
            lemma_word_len(f, mid, to, j);
        }
    }
}

/// Whether `a` is a prefix of `b` (or equal to it).
pub open spec fn is_prefix(a: Seq<bool>, b: Seq<bool>) -> bool {
    a.len() <= b.len() && b.take(a.len() as int) == a
}

/// No code word of a run is a prefix of the code word of another entry.
pub proof fn lemma_prefix_free(f: Seq<(u8, u32)>, from: int, to: int, j: int, k: int)
    requires
        from <= j <= to,
        from <= k <= to,
        j != k,
    ensures
        !is_prefix(word(f, from, to, j), word(f, from, to, k)),
    decreases to - from,
{
    let mid = split(f, from, to);
    lemma_split(f, from, to);
    let wj = word(f, from, to, j);
    let wk = word(f, from, to, k);
    if (j < mid) == (k < mid) {
        let (a, b) = if j < mid {
            (from, mid - 1)
        } else {
            (mid, to)
        };
        lemma_prefix_free(f, a, b, j, k);
        if is_prefix(wj, wk) {
            let uj = word(f, a, b, j);
            let uk = word(f, a, b, k);
            assert(wk.take(wj.len() as int).drop_first() =~= uk.take(uj.len() as int));
            assert(wj.drop_first() =~= uj);
        }
    } else {
        lemma_word_len(f, from, to, j);
        if is_prefix(wj, wk) {
            assert(wk.take(wj.len() as int)[0] == wj[0]);
        }
    }
}

/// Whether no symbol occurs twice among the entries `f`.
pub open spec fn symbols_distinct(f: Seq<(u8, u32)>) -> bool {
    forall|k1: int, k2: int| 0 <= k1 < k2 < f.len() ==> #[trigger] f[k1].0 != #[trigger] f[k2].0
}

/// Whether symbol `s` is that of an entry of the run `f[from..=to]`.
pub open spec fn in_run(f: Seq<(u8, u32)>, from: int, to: int, s: u8) -> bool {
    exists|j: int| from <= j <= to && #[trigger] f[j].0 == s
}

/// The code word of each symbol of the run `f[from..=to]`, behind `prefix`.
pub open spec fn run_codes(f: Seq<(u8, u32)>, from: int, to: int, prefix: Seq<bool>) -> Map<u8, Seq<bool>> {
    Map::new(
        |s: u8| in_run(f, from, to, s),
        |s: u8| prefix + word(f, from, to, choose|j: int| from <= j <= to && #[trigger] f[j].0 == s),
    )
}

/// The code word of each symbol of the entries `f`.
pub open spec fn sf_codes(f: Seq<(u8, u32)>) -> Map<u8, Seq<bool>> {
    run_codes(f, 0, f.len() - 1, Seq::<bool>::empty())
}

/// The code word of the symbol of entry `j` is the path to `j`.
pub proof fn lemma_run_codes(f: Seq<(u8, u32)>, from: int, to: int, prefix: Seq<bool>, j: int)
    requires
        0 <= from <= j <= to < f.len(),
        symbols_distinct(f),
    ensures
        run_codes(f, from, to, prefix).dom().contains(f[j].0),
        run_codes(f, from, to, prefix)[f[j].0] == prefix + word(f, from, to, j),
{
    let s = f[j].0;
    assert(in_run(f, from, to, s));
    let c = choose|i: int| from <= i <= to && #[trigger] f[i].0 == s;
    if c != j {
        if c < j {
            assert(f[c].0 != f[j].0);
        } else {
            assert(f[j].0 != f[c].0);
        }
    }
}

/// The codes of a run are those of its two parts behind their branch bits.
proof fn lemma_run_codes_split(f: Seq<(u8, u32)>, from: int, to: int, prefix: Seq<bool>)
    requires
        0 <= from < to < f.len(),
        symbols_distinct(f),
    ensures
        run_codes(f, from, split(f, from, to) - 1, prefix.push(false)).union_prefer_right(
            run_codes(f, split(f, from, to), to, prefix.push(true)),
        ) == run_codes(f, from, to, prefix),
{
    let mid = split(f, from, to);
    lemma_split(f, from, to);
    let l = run_codes(f, from, mid - 1, prefix.push(false));
    let r = run_codes(f, mid, to, prefix.push(true));
    let all = run_codes(f, from, to, prefix);
    assert forall|s: u8| #[trigger] l.union_prefer_right(r).dom().contains(s) <==> all.dom().contains(s) by {
        if all.dom().contains(s) {
            let j = choose|j: int| from <= j <= to && #[trigger] f[j].0 == s;
            if j < mid {
                assert(in_run(f, from, mid - 1, s));
            } else {
                assert(in_run(f, mid, to, s));
            }
        }
    }
    assert forall|s: u8| #[trigger] all.dom().contains(s) implies l.union_prefer_right(r)[s] == all[s] by {
        let j = choose|j: int| from <= j <= to && #[trigger] f[j].0 == s;
        lemma_run_codes(f, from, to, prefix, j);
        if j < mid {
            lemma_run_codes(f, from, mid - 1, prefix.push(false), j);
            if r.dom().contains(s) {
                let i = choose|i: int| mid <= i <= to && #[trigger] f[i].0 == s;
                assert(f[j].0 != f[i].0);
            }
            assert(prefix + (seq![false] + word(f, from, mid - 1, j)) =~= prefix.push(false) + word(f, from, mid - 1, j));
        } else {
            lemma_run_codes(f, mid, to, prefix.push(true), j);
            assert(prefix + (seq![true] + word(f, mid, to, j)) =~= prefix.push(true) + word(f, mid, to, j));
        }
    }
    assert(l.union_prefer_right(r) =~= all);
}

/// Writes into `map` the code word of each symbol of the run
/// `freqs[from..=to]`, behind the bits `bit_vec`.
fn update_encode_map(
    map: &mut std::collections::HashMap<u8, BitVec>,
    freqs: &Vec<(u8, u32)>,
    from: usize,
    to: usize,
    bit_vec: BitVec,
)
    requires
        from <= to < freqs@.len(),
        symbols_distinct(freqs@),
        splits_fit(freqs@, from as int, to as int),
        bits_of(bit_vec).len() + (to - from) <= 255,
    ensures
        code_view(final(map)@) == code_view(old(map)@).union_prefer_right(
            run_codes(freqs@, from as int, to as int, bits_of(bit_vec)),
        ),
    decreases to - from,
{
    broadcast use vstd::std_specs::hash::group_hash_axioms;

    let ghost prefix = bits_of(bit_vec);
    let mut bit_vec = bit_vec;
    if from < to {
        let mid = step_encode(freqs, from, to).unwrap();
        bv_push(&mut bit_vec, false);
        update_encode_map(map, freqs, from, mid - 1, bv_clone(&bit_vec));
        bv_pop(&mut bit_vec);
        bv_push(&mut bit_vec, true);
        assert(bits_of(bit_vec) =~= prefix.push(true));
        update_encode_map(map, freqs, mid, to, bv_clone(&bit_vec));
        proof {
            lemma_run_codes_split(freqs@, from as int, to as int, prefix);
            let m = code_view(old(map)@);
            let l = run_codes(freqs@, from as int, mid - 1, prefix.push(false));
            let r = run_codes(freqs@, mid as int, to as int, prefix.push(true));
            assert(m.union_prefer_right(l).union_prefer_right(r) =~= m.union_prefer_right(l.union_prefer_right(r)));
        }
    } else {
        let sym = freqs[from].0;
        proof {
            lemma_code_view_insert(map@, sym, bit_vec);
            lemma_run_codes(freqs@, from as int, to as int, prefix, from as int);
            let rc = run_codes(freqs@, from as int, to as int, prefix);
            assert(prefix + Seq::<bool>::empty() =~= prefix);
            assert forall|s: u8| #[trigger] rc.dom().contains(s) implies s == sym by {
                let j = choose|j: int| from <= j <= to && #[trigger] freqs@[j].0 == s;
            }
            assert(code_view(map@).insert(sym, prefix) =~= code_view(map@).union_prefer_right(rc));
        }
        map.insert(sym, bit_vec);
    }
}

// ---------------------------------------------------------------------------
// The decoding table
// ---------------------------------------------------------------------------

/// The bits and the symbol of each entry of a decoding table.
pub open spec fn table_view(t: Seq<(BitVec, u8)>) -> Seq<(Seq<bool>, u8)> {
    Seq::new(t.len(), |i: int| (bits_of(t[i].0), t[i].1))
}

/// The code word (behind `prefix`) and the symbol of each entry of the run
/// `f[from..=to]`, in order.
pub open spec fn run_table(f: Seq<(u8, u32)>, from: int, to: int, prefix: Seq<bool>) -> Seq<(Seq<bool>, u8)> {
    Seq::new((to - from + 1) as nat, |k: int| (prefix + word(f, from, to, from + k), f[from + k].0))
}

/// The decoding table of the entries `f`.
pub open spec fn sf_table(f: Seq<(u8, u32)>) -> Seq<(Seq<bool>, u8)> {
    run_table(f, 0, f.len() - 1, Seq::<bool>::empty())
}

/// The table of a run is that of its first part, then that of its second,
/// behind their branch bits.
proof fn lemma_run_table_split(f: Seq<(u8, u32)>, from: int, to: int, prefix: Seq<bool>)
    requires
        0 <= from < to < f.len(),
    ensures
        run_table(f, from, split(f, from, to) - 1, prefix.push(false)) + run_table(
            f,
            split(f, from, to),
            to,
            prefix.push(true),
        ) == run_table(f, from, to, prefix),
{
    let mid = split(f, from, to);
    lemma_split(f, from, to);
    let l = run_table(f, from, mid - 1, prefix.push(false));
    let r = run_table(f, mid, to, prefix.push(true));
    let all = run_table(f, from, to, prefix);
    assert forall|k: int| 0 <= k < all.len() implies #[trigger] (l + r)[k] == all[k] by {
        let j = from + k;
        if j < mid {
            assert(prefix + (seq![false] + word(f, from, mid - 1, j)) =~= prefix.push(false) + word(f, from, mid - 1, j));
        } else {
            assert(prefix + (seq![true] + word(f, mid, to, j)) =~= prefix.push(true) + word(f, mid, to, j));
        }
    }
    assert(l + r =~= all);
}

/// Appends to `table` the code word and symbol of each entry of the run
/// `freqs[from..=to]`, the words behind the bits `bit_vec`.  Returns `false`
/// when a split of the run does not fit in `u32`.
fn update_decode_map(
    table: &mut Vec<(BitVec, u8)>,
    freqs: &Vec<(u8, u32)>,
    from: usize,
    to: usize,
    bit_vec: BitVec,
) -> (ok: bool)
    requires
        from <= to < freqs@.len(),
        bits_of(bit_vec).len() + (to - from) <= 255,
    ensures
        ok == splits_fit(freqs@, from as int, to as int),
        ok ==> table_view(final(table)@) == table_view(old(table)@) + run_table(
            freqs@,
            from as int,
            to as int,
            bits_of(bit_vec),
        ),
    decreases to - from,
{
    let ghost prefix = bits_of(bit_vec);
    let mut bit_vec = bit_vec;
    if from < to {
        let mid = match step_encode(freqs, from, to) {
            Some(mid) => mid,
            None => {
                return false;
            },
        };
        bv_push(&mut bit_vec, false);
        let ghost t0 = table_view(table@);
        if !update_decode_map(table, freqs, from, mid - 1, bv_clone(&bit_vec)) {
            return false;
        }
        let ghost t1 = table_view(table@);
        bv_pop(&mut bit_vec);
        bv_push(&mut bit_vec, true);
        assert(bits_of(bit_vec) =~= prefix.push(true));
        if !update_decode_map(table, freqs, mid, to, bv_clone(&bit_vec)) {
            return false;
        }
        proof {
            lemma_run_table_split(freqs@, from as int, to as int, prefix);
            let l = run_table(freqs@, from as int, mid - 1, prefix.push(false));
            let r = run_table(freqs@, mid as int, to as int, prefix.push(true));
            assert(t0 + l + r =~= t0 + (l + r));
        }
        true
    } else {
        let sym = freqs[from].0;
        let ghost t0 = table_view(table@);
        table.push((bit_vec, sym));
        proof {
            assert(prefix + Seq::<bool>::empty() =~= prefix);
            assert(table_view(table@) =~= t0 + run_table(freqs@, from as int, to as int, prefix));
        }
        true
    }
}

/// The code word of each symbol of the sorted entries `freqs`.
fn slovar_encode(freqs: &Vec<(u8, u32)>) -> (r: std::collections::HashMap<u8, BitVec>)
    requires
        1 <= freqs@.len() <= 256,
        symbols_distinct(freqs@),
        splits_fit(freqs@, 0, freqs@.len() - 1),
    ensures
        code_view(r@) == sf_codes(freqs@),
{
    broadcast use vstd::std_specs::hash::group_hash_axioms;

    let mut map: std::collections::HashMap<u8, BitVec> = std::collections::HashMap::new();
    assert(code_view(map@) =~= Map::<u8, Seq<bool>>::empty());
    update_encode_map(&mut map, freqs, 0, freqs.len() - 1, bv_new());
    assert(Map::<u8, Seq<bool>>::empty().union_prefer_right(sf_codes(freqs@)) =~= sf_codes(freqs@));
    map
}

/// The decoding table of the sorted entries `freqs`: each code word with
/// its symbol.  `None` when a split does not fit in `u32`.
fn slovar_decode(freqs: &Vec<(u8, u32)>) -> (r: Option<Vec<(BitVec, u8)>>)
    requires
        1 <= freqs@.len() <= 256,
    ensures
        match r {
            Some(t) => splits_fit(freqs@, 0, freqs@.len() - 1) && table_view(t@) == sf_table(freqs@),
            None => !splits_fit(freqs@, 0, freqs@.len() - 1),
        },
{
    let mut table: Vec<(BitVec, u8)> = Vec::new();
    assert(table_view(table@) =~= Seq::<(Seq<bool>, u8)>::empty());
    if !update_decode_map(&mut table, freqs, 0, freqs.len() - 1, bv_new()) {
        return None;
    }
    assert(table_view(table@) =~= sf_table(freqs@));
    Some(table)
}

/// The symbol of the last entry of `t` whose word is `w`.
pub open spec fn lookup(t: Seq<(Seq<bool>, u8)>, w: Seq<bool>) -> Option<u8>
    decreases t.len(),
{
    if t.len() == 0 {
        None
    } else if t.last().0 == w {
        Some(t.last().1)
    } else {
        lookup(t.drop_last(), w)
    }
}

/// Looks `w` up in `table`, the last entry first.
fn lookup_table(table: &Vec<(BitVec, u8)>, w: &BitVec) -> (r: Option<u8>)
    ensures
        r == lookup(table_view(table@), bits_of(*w)),
{
    let ghost t = table_view(table@);
    let mut i = table.len();
    assert(t.take(i as int) =~= t);
    while i > 0
        invariant
            i <= table@.len(),
            t == table_view(table@),
            lookup(t, bits_of(*w)) == lookup(t.take(i as int), bits_of(*w)),
        decreases i,
    {
        let entry = &table[i - 1];
        if bv_eq(&entry.0, w) {
            return Some(entry.1);
        }
        assert(t.take(i as int).drop_last() =~= t.take(i - 1));
        i -= 1;
    }
    None
}

/// How the decoder reads `bits` from `pos` on, `w` being the bits read
/// since the last symbol: it emits the symbol of `w` once `w` is a word of
/// the table, else reads the next bit; at the end it emits the symbol of the
/// final `w`.  `None` where the decoder never finishes (the empty word is in
/// the table and bits remain) or fails at the end (the final `w` is no word).
pub open spec fn sf_parse(t: Seq<(Seq<bool>, u8)>, bits: Seq<bool>, pos: int, w: Seq<bool>) -> Option<Seq<u8>>
    decreases bits.len() - pos, w.len(),
{
    if pos >= bits.len() {
        match lookup(t, w) {
            Some(s) => Some(seq![s]),
            None => None,
        }
    } else {
        match lookup(t, w) {
            Some(s) => if w.len() == 0 {
                None
            } else {
                match sf_parse(t, bits, pos, Seq::<bool>::empty()) {
                    Some(rest) => Some(seq![s] + rest),
                    None => None,
                }
            },
            None => sf_parse(t, bits, pos + 1, w.push(bits[pos])),
        }
    }
}

// ---------------------------------------------------------------------------
// Coding and decoding
// ---------------------------------------------------------------------------

/// The code bits of `input` under the code built from its counts.
pub open spec fn encoded_bits(input: Seq<u8>) -> Seq<bool> {
    code_bits(sf_codes(sorted_entries(freqs_of(input), 256)), input)
}

/// What `encode` returns: the code bits packed into bytes, the 256 counts,
/// and the number of bits in the last data byte (0 for a full one).
pub open spec fn spec_encode(input: Seq<u8>) -> Seq<u8> {
    frame(encoded_bits(input), freqs_of(input))
}

/// The entries sorted from the counts of `input` hold each of its symbols
/// once, and their counts add up to its length.
proof fn lemma_input_entries(input: Seq<u8>)
    requires
        input.len() <= u32::MAX,
    ensures
        symbols_distinct(sorted_entries(freqs_of(input), 256)),
        sorted_entries(freqs_of(input), 256).len() <= 256,
        total(sorted_entries(freqs_of(input), 256)) == input.len(),
        forall|k: int|
            #![trigger input[k]]
            0 <= k < input.len() ==> in_run(
                sorted_entries(freqs_of(input), 256),
                0,
                sorted_entries(freqs_of(input), 256).len() - 1,
                input[k],
            ),
{
    let fr = freqs_of(input);
    let f = sorted_entries(fr, 256);
    lemma_sorted_entries(fr, 256);
    lemma_freqs_total(input);
    assert forall|k: int| #![trigger input[k]] 0 <= k < input.len() implies in_run(f, 0, f.len() - 1, input[k]) by {
        lemma_occurs(input, k);
        lemma_occurrences_le(input, input[k]);
        let sym = input[k] as int;
        assert(fr[sym] != 0);
        let j = choose|j: int| 0 <= j < f.len() && #[trigger] f[j].0 == sym;
        assert(f[j].0 == input[k]);
    }
}

/// Every symbol of `input` has a code word of at most 255 bits.
proof fn lemma_input_coded(input: Seq<u8>)
    requires
        input.len() <= u32::MAX,
    ensures
        forall|k: int|
            #![trigger input[k]]
            0 <= k < input.len() ==> {
                let codes = sf_codes(sorted_entries(freqs_of(input), 256));
                &&& codes.dom().contains(input[k])
                &&& codes[input[k]].len() <= 255
            },
{
    let f = sorted_entries(freqs_of(input), 256);
    lemma_input_entries(input);
    assert forall|k: int| #![trigger input[k]] 0 <= k < input.len() implies {
        let codes = sf_codes(f);
        &&& codes.dom().contains(input[k])
        &&& codes[input[k]].len() <= 255
    } by {
        assert(in_run(f, 0, f.len() - 1, input[k]));
        let j = choose|j: int| 0 <= j <= f.len() - 1 && #[trigger] f[j].0 == input[k];
        lemma_run_codes(f, 0, f.len() - 1, Seq::<bool>::empty(), j);
        lemma_word_len(f, 0, f.len() - 1, j);
        assert(Seq::<bool>::empty() + word(f, 0, f.len() - 1, j) =~= word(f, 0, f.len() - 1, j));
    }
}

/// Codes `input` with the Shannon–Fano code built from its symbol counts.
/// An empty input leaves the code table empty, and a symbol counted past
/// `u32::MAX` overflows its count, so neither is accepted.
pub fn encode(input: &[u8]) -> (r: Vec<u8>)
    requires
        1 <= input@.len() <= u32::MAX,
        input@.len() * 256 <= usize::MAX,
    ensures
        r@ == spec_encode(input@),
{
    broadcast use vstd::std_specs::hash::group_hash_axioms;

    let freqs = count_freqs(input);
    let sorted = sort_freqs(&freqs);
    let ghost f = sorted@;
    let ghost codes = sf_codes(f);
    proof {
        lemma_input_entries(input@);
        lemma_input_coded(input@);
        assert(input@[0] == input@[0]);
        assert(f.subrange(0, f.len() as int) =~= f);
        lemma_splits_fit(f, 0, f.len() - 1);
    }
    let map = slovar_encode(&sorted);
    let mut bits = bv_new();
    assert(code_bits(codes, input@.take(0)) =~= Seq::<bool>::empty());
    let mut i: usize = 0;
    while i < input.len()
        invariant
            i <= input@.len(),
            input@.len() * 256 <= usize::MAX,
            code_view(map@) == codes,
            forall|k: int|
                #![trigger input@[k]]
                0 <= k < input@.len() ==> codes.dom().contains(input@[k]) && codes[input@[k]].len() <= 255,
            bits_of(bits) == code_bits(codes, input@.take(i as int)),
            bits_of(bits).len() <= 255 * i,
        decreases input@.len() - i,
    {
        let ghost before = bits_of(bits);
        let sym = input[i];
        assert(codes.dom().contains(input@[i as int]));
        let code = map.get(&sym).unwrap();
        assert(bits_of(*code) == codes[sym]);
        let n = bv_len(code);
        let mut j: usize = 0;
        while j < n
            invariant
                n == bits_of(*code).len(),
                n <= 255,
                j <= n,
                before.len() <= 255 * i,
                i < input@.len(),
                input@.len() * 256 <= usize::MAX,
                bits_of(bits) == before + bits_of(*code).take(j as int),
            decreases n - j,
        {
            let bit = bv_get(code, j).unwrap();
            assert(bits_of(*code).take(j as int + 1) =~= bits_of(*code).take(j as int).push(bit));
            bv_push(&mut bits, bit);
            j += 1;
        }
        proof {
            assert(bits_of(*code).take(n as int) =~= bits_of(*code));
            lemma_code_bits_push(codes, input@.take(i as int), sym);
            assert(input@.take(i as int + 1) =~= input@.take(i as int).push(sym));
        }
        i += 1;
    }
    assert(input@.take(input@.len() as int) =~= input@);
    let mut out = bv_to_bytes(&bits);
    push_table(&mut out, &freqs);
    let nbits = bv_len(&bits);
    out.push((nbits % 8) as u8);
    out
}

/// What `decode` returns: `None` for fewer than 1025 bytes, else the
/// symbols the decoder reads from the data bits with the table built from
/// the counts.
pub open spec fn spec_decode(input: Seq<u8>) -> Option<Seq<u8>> {
    if input.len() < 1025 {
        None
    } else {
        let f = sorted_entries(read_freqs(input), 256);
        sf_parse(sf_table(f), data_bits(input, 1025), 0, Seq::<bool>::empty())
    }
}

/// The inputs on which `decode` returns: too short to hold the counts, or
/// with a final byte of at most 8, some nonzero count, sums of counts that
/// fit in `u32` while the table is built, and data bits that the decoder
/// reads to the end of a word.
pub open spec fn decode_ok(input: Seq<u8>) -> bool {
    input.len() < 1025 || {
        let f = sorted_entries(read_freqs(input), 256);
        &&& input[input.len() - 1] <= 8
        &&& (input.len() - 1025) * 8 <= usize::MAX
        &&& f.len() >= 1
        &&& splits_fit(f, 0, f.len() - 1)
        &&& sf_parse(sf_table(f), data_bits(input, 1025), 0, Seq::<bool>::empty()) is Some
    }
}

/// Decodes what `encode` wrote (`Some(None)` when the input is shorter than
/// the counts); `None` outside `decode_ok`.
pub fn try_decode(input: &[u8]) -> (r: Option<Option<Vec<u8>>>)
    ensures
        match r {
            Some(d) => decode_ok(input@) && match d {
                Some(v) => spec_decode(input@) == Some(v@),
                None => spec_decode(input@) is None,
            },
            None => !decode_ok(input@),
        },
{
    if input.len() < 256 * 4 + 1 {
        return Some(None);
    }
    let n = input.len();
    if input[n - 1] > 8 || n - 1025 > usize::MAX / 8 {
        return None;
    }
    let bits = read_data_bits(input, 1025);
    let freqs = read_table(input);
    let sorted = sort_freqs(&freqs);
    proof {
        lemma_sorted_entries(freqs@, 256);
    }
    if sorted.len() == 0 {
        return None;
    }
    let table = match slovar_decode(&sorted) {
        Some(table) => table,
        None => {
            return None;
        },
    };
    let ghost t = table_view(table@);
    let ghost db = bits_of(bits);
    let ghost top = sf_parse(t, db, 0, Seq::<bool>::empty());
    let len = bv_len(&bits);
    let mut start: usize = 0;
    let mut out: Vec<u8> = Vec::new();
    let mut byte = bv_new();
    proof {
        if let Some(rest) = top {
            assert(out@ + rest =~= rest);
        }
    }
    while start < len
        invariant
            db == bits_of(bits),
            len == db.len(),
            start <= len,
            t == table_view(table@),
            bits_of(byte).len() <= start,
            top == sf_parse(t, db, 0, Seq::<bool>::empty()),
            t == sf_table(sorted_entries(read_freqs(input@), 256)),
            db == data_bits(input@, 1025),
            input@.len() >= 1025,
            top == match sf_parse(t, db, start as int, bits_of(byte)) {
                Some(rest) => Some(out@ + rest),
                None => None::<Seq<u8>>,
            },
        decreases 2 * (len - start) + bits_of(byte).len(),
    {
        match lookup_table(&table, &byte) {
            None => {
                let b = bv_get(&bits, start).unwrap();
                bv_push(&mut byte, b);
                start += 1;
            },
            Some(sym) => {
                if bv_len(&byte) == 0 {
                    return None;
                }
                proof {
                    if let Some(rest) = sf_parse(t, db, start as int, Seq::<bool>::empty()) {
                        assert(out@ + (seq![sym] + rest) =~= out@.push(sym) + rest);
                    }
                }
                out.push(sym);
                byte = bv_new();
            },
        }
    }
    match lookup_table(&table, &byte) {
        Some(sym) => {
            assert(out@ + seq![sym] =~= out@.push(sym));
            out.push(sym);
            Some(Some(out))
        },
        None => None,
    }
}

/// Decodes what `encode` wrote; `None` when the input is shorter than the
/// counts.  Outside `decode_ok` the decoder fails (a sum leaving `u32`, a
/// last word that is none of the table's) or never finishes (the empty word
/// in the table and bits left), so the input must lie inside it.
pub fn decode(input: &[u8]) -> (r: Option<Vec<u8>>)
    requires
        decode_ok(input@),
    ensures
        match r {
            Some(v) => spec_decode(input@) == Some(v@),
            None => spec_decode(input@) is None,
        },
{
    try_decode(input).unwrap()
}

// ---------------------------------------------------------------------------
// Decoding what was coded
// ---------------------------------------------------------------------------

/// Looking up the word of an entry finds its symbol, provided no other
/// entry has the same word.
proof fn lemma_lookup_found(t: Seq<(Seq<bool>, u8)>, i: int)
    requires
        0 <= i < t.len(),
        forall|k: int| 0 <= k < t.len() && k != i ==> #[trigger] t[k].0 != t[i].0,
    ensures
        lookup(t, t[i].0) == Some(t[i].1),
    decreases t.len(),
{
    if i < t.len() - 1 {
        let u = t.drop_last();
        assert forall|k: int| 0 <= k < u.len() && k != i implies #[trigger] u[k].0 != u[i].0 by {
            assert(u[k] == t[k]);
        }
        lemma_lookup_found(u, i);
    }
}

/// Looking up a word that no entry has finds nothing.
proof fn lemma_lookup_missing(t: Seq<(Seq<bool>, u8)>, w: Seq<bool>)
    requires
        forall|k: int| 0 <= k < t.len() ==> #[trigger] t[k].0 != w,
    ensures
        lookup(t, w) is None,
    decreases t.len(),
{
    if t.len() > 0 {
        let u = t.drop_last();
        assert forall|k: int| 0 <= k < u.len() implies #[trigger] u[k].0 != w by {
            assert(u[k] == t[k]);
        }
        lemma_lookup_missing(u, w);
    }
}

/// In the table of two or more entries, the word of entry `j` finds its
/// symbol, and each proper prefix of it finds nothing.
proof fn lemma_table_words(f: Seq<(u8, u32)>, j: int)
    requires
        0 <= j < f.len(),
        f.len() >= 2,
    ensures
        lookup(sf_table(f), word(f, 0, f.len() - 1, j)) == Some(f[j].0),
        forall|m: int|
            0 <= m < word(f, 0, f.len() - 1, j).len() ==> lookup(
                sf_table(f),
                #[trigger] word(f, 0, f.len() - 1, j).take(m),
            ) is None,
{
    let n = f.len() as int;
    let t = sf_table(f);
    let w = word(f, 0, n - 1, j);
    assert forall|k: int| 0 <= k < n implies #[trigger] t[k].0 == word(f, 0, n - 1, k) by {
        assert(Seq::<bool>::empty() + word(f, 0, n - 1, k) =~= word(f, 0, n - 1, k));
    }
    assert forall|k: int| 0 <= k < t.len() && k != j implies #[trigger] t[k].0 != t[j].0 by {
        lemma_prefix_free(f, 0, n - 1, k, j);
        if t[k].0 == t[j].0 {
            assert(word(f, 0, n - 1, j).take(word(f, 0, n - 1, k).len() as int) =~= word(f, 0, n - 1, j));
        }
    }
    lemma_lookup_found(t, j);
    assert forall|m: int| 0 <= m < w.len() implies lookup(t, #[trigger] w.take(m)) is None by {
        assert forall|k: int| 0 <= k < t.len() implies #[trigger] t[k].0 != w.take(m) by {
            if t[k].0 == w.take(m) {
                if k == j {
                    assert(w.take(m).len() == m);
                } else {
                    lemma_prefix_free(f, 0, n - 1, k, j);
                    assert(w.take(m) =~= w.take(word(f, 0, n - 1, k).len() as int));
                }
            }
        }
        lemma_lookup_missing(t, w.take(m));
    }
}

/// The decoding table of the sorted entries is the inverse of their code:
/// one entry per symbol, each entry's word is its symbol's code word, and
/// looking up a symbol's code word finds the symbol.
pub proof fn lemma_table_inverts_codes(f: Seq<(u8, u32)>)
    requires
        f.len() >= 1,
        symbols_distinct(f),
    ensures
        sf_table(f).len() == f.len(),
        sf_codes(f).dom().len() == f.len(),
        forall|i: int|
            0 <= i < sf_table(f).len() ==> sf_codes(f).dom().contains(#[trigger] sf_table(f)[i].1) && sf_codes(
                f,
            )[sf_table(f)[i].1] == sf_table(f)[i].0,
        forall|s: u8| #[trigger] sf_codes(f).dom().contains(s) ==> lookup(sf_table(f), sf_codes(f)[s]) == Some(s),
{
    let n = f.len() as int;
    let t = sf_table(f);
    let codes = sf_codes(f);
    assert forall|i: int| 0 <= i < t.len() implies codes.dom().contains(#[trigger] t[i].1) && codes[t[i].1]
        == t[i].0 by {
        lemma_run_codes(f, 0, n - 1, Seq::<bool>::empty(), i);
    }
    assert forall|s: u8| #[trigger] codes.dom().contains(s) implies lookup(t, codes[s]) == Some(s) by {
        let j = choose|j: int| 0 <= j <= n - 1 && #[trigger] f[j].0 == s;
        lemma_run_codes(f, 0, n - 1, Seq::<bool>::empty(), j);
        assert(Seq::<bool>::empty() + word(f, 0, n - 1, j) =~= word(f, 0, n - 1, j));
        if n >= 2 {
            lemma_table_words(f, j);
        } else {
            assert(t[0].0 =~= Seq::<bool>::empty());
            lemma_lookup_found(t, 0);
        }
    }
    let syms = f.map_values(|e: (u8, u32)| e.0);
    assert(syms.no_duplicates()) by {
        assert forall|a: int, b: int| 0 <= a < syms.len() && 0 <= b < syms.len() && a != b implies syms[a]
            != syms[b] by {
            if a < b {
                assert(f[a].0 != f[b].0);
            } else {
                assert(f[b].0 != f[a].0);
            }
        }
    }
    syms.unique_seq_to_set();
    assert(codes.dom() =~= syms.to_set()) by {
        assert forall|s: u8| codes.dom().contains(s) implies syms.to_set().contains(s) by {
            let j = choose|j: int| 0 <= j <= n - 1 && #[trigger] f[j].0 == s;
            assert(syms[j] == s);
        }
        assert forall|s: u8| syms.to_set().contains(s) implies codes.dom().contains(s) by {
            let j = choose|j: int| 0 <= j < syms.len() && syms[j] == s;
            assert(f[j].0 == s);
            assert(in_run(f, 0, n - 1, s));
        }
    }
}

/// The decoder reads a whole word `u` that starts at `pos`: from any of its
/// proper prefixes it reaches the end of the word with all of `u` read.
proof fn lemma_parse_word(t: Seq<(Seq<bool>, u8)>, bits: Seq<bool>, pos: int, u: Seq<bool>, m: int)
    requires
        0 <= pos,
        0 <= m <= u.len(),
        pos + u.len() <= bits.len(),
        bits.subrange(pos, pos + u.len()) == u,
        forall|i: int| 0 <= i < u.len() ==> lookup(t, #[trigger] u.take(i)) is None,
    ensures
        sf_parse(t, bits, pos + m, u.take(m)) == sf_parse(t, bits, pos + u.len(), u),
    decreases u.len() - m,
{
    if m < u.len() {
        assert(bits[pos + m] == u[m]);
        assert(u.take(m).push(u[m]) =~= u.take(m + 1));
        lemma_parse_word(t, bits, pos, u, m + 1);
    } else {
        assert(u.take(m) =~= u);
    }
}

/// The decoder reads the code words of `s` back as `s`.
proof fn lemma_parse_codes(f: Seq<(u8, u32)>, s: Seq<u8>, bits: Seq<bool>, pos: int)
    requires
        f.len() >= 2,
        symbols_distinct(f),
        s.len() >= 1,
        forall|k: int| #![trigger s[k]] 0 <= k < s.len() ==> in_run(f, 0, f.len() - 1, s[k]),
        0 <= pos <= bits.len(),
        bits.subrange(pos, bits.len() as int) == code_bits(sf_codes(f), s),
    ensures
        sf_parse(sf_table(f), bits, pos, Seq::<bool>::empty()) == Some(s),
    decreases s.len(),
{
    let n = f.len() as int;
    let t = sf_table(f);
    let codes = sf_codes(f);
    assert(in_run(f, 0, n - 1, s[0]));
    let j = choose|j: int| 0 <= j <= n - 1 && #[trigger] f[j].0 == s[0];
    lemma_run_codes(f, 0, n - 1, Seq::<bool>::empty(), j);
    let u = word(f, 0, n - 1, j);
    assert(codes[s[0]] =~= u);
    lemma_word_len(f, 0, n - 1, j);
    lemma_table_words(f, j);
    let r = s.drop_first();
    let rest = code_bits(codes, r);
    assert(code_bits(codes, s) == u + rest);
    assert(bits.subrange(pos, pos + u.len()) =~= u) by {
        assert forall|i: int| 0 <= i < u.len() implies bits.subrange(pos, pos + u.len())[i] == u[i] by {
            assert(bits.subrange(pos, bits.len() as int)[i] == (u + rest)[i]);
        }
    }
    assert(u.take(0) =~= Seq::<bool>::empty());
    lemma_parse_word(t, bits, pos, u, 0);
    if r.len() == 0 {
        assert(rest.len() == 0);
        assert(seq![s[0]] =~= s);
    } else {
        assert forall|k: int| #![trigger r[k]] 0 <= k < r.len() implies in_run(f, 0, n - 1, r[k]) by {
            assert(r[k] == s[k + 1]);
        }
        assert(bits.subrange(pos + u.len(), bits.len() as int) =~= rest) by {
            assert forall|i: int| 0 <= i < rest.len() implies bits.subrange(pos + u.len(), bits.len() as int)[i]
                == rest[i] by {
                assert(bits.subrange(pos, bits.len() as int)[u.len() + i] == (u + rest)[u.len() + i]);
            }
        }
        lemma_code_bits_len_pos(codes, r);
        lemma_parse_codes(f, r, bits, pos + u.len());
        assert(seq![s[0]] + r =~= s);
    }
}

/// The code bits of a nonempty string of symbols with nonempty words are
/// not empty.
proof fn lemma_code_bits_len_pos(codes: Map<u8, Seq<bool>>, s: Seq<u8>)
    requires
        s.len() >= 1,
        codes[s[0]].len() >= 1,
    ensures
        code_bits(codes, s).len() >= 1,
{
}

/// Decoding what `encode` wrote gives the input back, when the input has
/// two different symbols or is one byte long.  (Of one symbol repeated,
/// the decoder reads back a single copy.)
pub proof fn lemma_roundtrip(input: Seq<u8>)
    requires
        input.len() <= u32::MAX,
        input.len() == 1 || exists|i: int, j: int| 0 <= i < j < input.len() && input[i] != input[j],
    ensures
        input.len() * 256 <= usize::MAX ==> decode_ok(spec_encode(input)),
        spec_decode(spec_encode(input)) == Some(input),
{
    let fr = freqs_of(input);
    let f = sorted_entries(fr, 256);
    let n = f.len() as int;
    let codes = sf_codes(f);
    let b = encoded_bits(input);
    lemma_input_entries(input);
    lemma_input_coded(input);
    assert(input[0] == input[0]);
    assert(in_run(f, 0, n - 1, input[0]));
    assert(f.subrange(0, n) =~= f);
    lemma_splits_fit(f, 0, n - 1);
    lemma_code_bits_len(codes, input);
    lemma_frame(b, fr);
    let enc = spec_encode(input);
    assert(b.subrange(0, b.len() as int) =~= b);
    if n >= 2 {
        lemma_parse_codes(f, input, b, 0);
    } else {
        // one symbol, coded by the empty word
        assert(input.len() == 1) by {
            if input.len() != 1 {
                let (i, j) = choose|i: int, j: int| 0 <= i < j < input.len() && input[i] != input[j];
                assert(in_run(f, 0, n - 1, input[i]));
                assert(in_run(f, 0, n - 1, input[j]));
            }
        }
        lemma_run_codes(f, 0, 0, Seq::<bool>::empty(), 0);
        assert(codes[input[0]] =~= Seq::<bool>::empty());
        assert(input.drop_first() =~= Seq::<u8>::empty());
        assert(code_bits(codes, input.drop_first()) =~= Seq::<bool>::empty());
        assert(b == codes[input[0]] + code_bits(codes, input.drop_first()));
        assert(b =~= Seq::<bool>::empty());
        let t = sf_table(f);
        assert(t[0].0 =~= Seq::<bool>::empty());
        lemma_lookup_found(t, 0);
        assert(seq![f[0].0] =~= input);
    }
}

} // verus!
