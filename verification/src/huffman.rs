//! Huffman coding of byte strings.
//!
//! The coded form is the packed code bits, then the 256 symbol counts as
//! little-endian `u32`, then one byte telling how many bits the last data
//! byte holds (0 for a full byte).  The code tree is rebuilt from the counts.
use crate::bits::{bits_of, bv_clone, bv_get, bv_len, bv_new, bv_push, bv_set, bv_to_bytes};
use crate::frame::{
    code_bits, code_view, count_freqs, count_nonzero, data_bits, frame, freq_total, freqs_of, lemma_code_bits_len,
    lemma_code_bits_push, lemma_code_view_insert, lemma_frame, lemma_freqs_total, lemma_occurrences_le, lemma_occurs, push_table,
    read_data_bits,
    read_freqs, read_table,
};
use bit_vec::BitVec;
use vstd::prelude::*;

verus! {

/// A node of the code tree, held in an array of 256 nodes.  The first field
/// is the branch taken on bit 0, the second the branch taken on bit 1; a
/// `Finish` side holds a symbol, the other side the index of a node.
#[derive(Clone, Copy, Debug)]
pub enum Node {
    Continuation(u8, u8),
    LeftFinish(u8, u8),
    RightFinish(u8, u8),
    BothFinish(u8, u8),
}

/// An entry of the heap that builds the tree: a built node (by index) or a
/// symbol, with its priority `u32::MAX - count`.
#[derive(Clone, Copy, Debug)]
pub enum Pair {
    Pointer(u8, u32),
    Value(u8, u32),
}

/// The priority of a heap entry.
pub open spec fn prob_of(p: Pair) -> u32 {
    match p {
        Pair::Pointer(_, a) => a,
        Pair::Value(_, a) => a,
    }
}

impl Pair {
    /// The priority of the entry.
    pub fn prob(&self) -> (r: u32)
        ensures
            r == prob_of(*self),
    {
        match self {
            Pair::Pointer(_, a) => *a,
            Pair::Value(_, a) => *a,
        }
    }

    /// The symbol of a `Value` entry.
    pub fn value(&self) -> (r: Option<u8>)
        ensures
            r == (match *self {
                Pair::Value(a, _) => Some(a),
                Pair::Pointer(_, _) => None::<u8>,
            }),
    {
        match self {
            Pair::Value(a, _) => Some(*a),
            _ => None,
        }
    }
}

// ---------------------------------------------------------------------------
// The heap (the binary max-heap of std's `BinaryHeap`, ordered by priority)
// ---------------------------------------------------------------------------

/// `s` with the entries at `i` and `j` exchanged.
pub open spec fn swap_at(s: Seq<Pair>, i: int, j: int) -> Seq<Pair> {
    s.update(i, s[j]).update(j, s[i])
}

/// Moves the entry at `pos` up while it has a higher priority than its parent.
pub open spec fn sift_up(h: Seq<Pair>, pos: int) -> Seq<Pair>
    decreases pos,
{
    if pos <= 0 {
        h
    } else {
        let parent = (pos - 1) / 2;
        if prob_of(h[pos]) <= prob_of(h[parent]) {
            h
        } else {
            sift_up(swap_at(h, pos, parent), parent)
        }
    }
}

/// Moves the entry at `pos` down to a leaf, always into the child of higher
/// priority (the right one on a tie), then up again as `sift_up` does.
pub open spec fn sift_down_to_bottom(h: Seq<Pair>, pos: int) -> Seq<Pair>
    decreases h.len() - pos,
{
    let end = h.len() as int;
    let child = 2 * pos + 1;
    if pos < 0 {
        h
    } else if end >= 2 && child <= end - 2 {
        let c = if prob_of(h[child]) <= prob_of(h[child + 1]) {
            child + 1
        } else {
            child
        };
        sift_down_to_bottom(swap_at(h, pos, c), c)
    } else if child == end - 1 {
        sift_up(swap_at(h, pos, child), child)
    } else {
        sift_up(h, pos)
    }
}

/// The heap after pushing `x`.
pub open spec fn heap_push(h: Seq<Pair>, x: Pair) -> Seq<Pair> {
    sift_up(h.push(x), h.len() as int)
}

/// The entry popped from a non-empty heap, and the heap after the pop.
pub open spec fn heap_pop(h: Seq<Pair>) -> (Pair, Seq<Pair>) {
    let last = h.last();
    let rest = h.drop_last();
    if rest.len() == 0 {
        (last, rest)
    } else {
        (rest[0], sift_down_to_bottom(rest.update(0, last), 0))
    }
}

fn swap_entries(h: &mut Vec<Pair>, i: usize, j: usize)
    requires
        i < old(h)@.len(),
        j < old(h)@.len(),
    ensures
        final(h)@ == swap_at(old(h)@, i as int, j as int),
{
    let a = h[i];
    let b = h[j];
    h.set(i, b);
    h.set(j, a);
}

fn exec_sift_up(h: &mut Vec<Pair>, pos: usize)
    requires
        pos < old(h)@.len(),
    ensures
        final(h)@ == sift_up(old(h)@, pos as int),
{
    let ghost target = sift_up(old(h)@, pos as int);
    let mut p = pos;
    while p > 0
        invariant
            p < h@.len(),
            sift_up(h@, p as int) == target,
        ensures
            h@ == target,
        decreases p,
    {
        let parent = (p - 1) / 2;
        if h[p].prob() <= h[parent].prob() {
            break;
        }
        swap_entries(h, p, parent);
        p = parent;
    }
}

fn exec_sift_down_to_bottom(h: &mut Vec<Pair>, pos: usize)
    requires
        pos < old(h)@.len(),
        old(h)@.len() <= 256,
    ensures
        final(h)@ == sift_down_to_bottom(old(h)@, pos as int),
{
    let ghost target = sift_down_to_bottom(old(h)@, pos as int);
    let end = h.len();
    let mut p = pos;
    let mut child = 2 * p + 1;
    while end >= 2 && child <= end - 2
        invariant
            end == h@.len(),
            end <= 256,
            p < end,
            child == 2 * p + 1,
            sift_down_to_bottom(h@, p as int) == target,
        decreases end - p,
    {
        if h[child].prob() <= h[child + 1].prob() {
            child = child + 1;
        }
        swap_entries(h, p, child);
        p = child;
        child = 2 * p + 1;
    }
    if child == end - 1 {
        swap_entries(h, p, child);
        p = child;
    }
    exec_sift_up(h, p);
}

/// `BinaryHeap::push`.
fn heap_push_exec(h: &mut Vec<Pair>, x: Pair)
    requires
        old(h)@.len() < usize::MAX,
    ensures
        final(h)@ == heap_push(old(h)@, x),
{
    let old_len = h.len();
    h.push(x);
    exec_sift_up(h, old_len);
}

/// `BinaryHeap::pop`.
fn heap_pop_exec(h: &mut Vec<Pair>) -> (r: Option<Pair>)
    requires
        old(h)@.len() <= 257,
    ensures
        old(h)@.len() == 0 ==> r is None && final(h)@ == old(h)@,
        old(h)@.len() > 0 ==> r == Some(heap_pop(old(h)@).0) && final(h)@ == heap_pop(old(h)@).1,
{
    match h.pop() {
        None => None,
        Some(item) => {
            if h.len() > 0 {
                let top = h[0];
                h.set(0, item);
                exec_sift_down_to_bottom(h, 0);
                Some(top)
            } else {
                Some(item)
            }
        },
    }
}

// ---------------------------------------------------------------------------
// Weights of heap entries
// ---------------------------------------------------------------------------

/// The count that a heap entry stands for.
pub open spec fn weight(p: Pair) -> int {
    u32::MAX - prob_of(p)
}

/// The sum of the counts of the entries of `s`.
pub open spec fn wsum(s: Seq<Pair>) -> int
    decreases s.len(),
{
    if s.len() == 0 {
        0
    } else {
        wsum(s.drop_last()) + weight(s.last())
    }
}

proof fn lemma_wsum_nonneg(s: Seq<Pair>)
    ensures
        wsum(s) >= 0,
    decreases s.len(),
{
    if s.len() > 0 {
        lemma_wsum_nonneg(s.drop_last());
    }
}

proof fn lemma_wsum_update(s: Seq<Pair>, i: int, v: Pair)
    requires
        0 <= i < s.len(),
    ensures
        wsum(s.update(i, v)) == wsum(s) - weight(s[i]) + weight(v),
    decreases s.len(),
{
    if i < s.len() - 1 {
        lemma_wsum_update(s.drop_last(), i, v);
        assert(s.update(i, v).drop_last() =~= s.drop_last().update(i, v));
    } else {
        assert(s.update(i, v).drop_last() =~= s.drop_last());
    }
}

proof fn lemma_wsum_swap(s: Seq<Pair>, i: int, j: int)
    requires
        0 <= i < s.len(),
        0 <= j < s.len(),
    ensures
        wsum(swap_at(s, i, j)) == wsum(s),
        swap_at(s, i, j).len() == s.len(),
{
    lemma_wsum_update(s, i, s[j]);
    lemma_wsum_update(s.update(i, s[j]), j, s[i]);
}

/// Whether `a` and `b` hold the same entries.
pub open spec fn same_elems(a: Seq<Pair>, b: Seq<Pair>) -> bool {
    forall|e: Pair| a.contains(e) <==> b.contains(e)
}

proof fn lemma_swap_same(s: Seq<Pair>, i: int, j: int)
    requires
        0 <= i < s.len(),
        0 <= j < s.len(),
    ensures
        same_elems(s, swap_at(s, i, j)),
{
    let t = swap_at(s, i, j);
    assert forall|e: Pair| s.contains(e) <==> t.contains(e) by {
        if s.contains(e) {
            let k = choose|k: int| 0 <= k < s.len() && s[k] == e;
            if k == i {
                assert(t[j] == e);
            } else if k == j {
                assert(t[i] == e);
            } else {
                assert(t[k] == e);
            }
        }
        if t.contains(e) {
            let k = choose|k: int| 0 <= k < t.len() && t[k] == e;
            if k == i {
                assert(s[j] == e);
            } else if k == j {
                assert(s[i] == e);
            } else {
                assert(s[k] == e);
            }
        }
    }
}

/// Whether every entry of `s` is a `Value`.
pub open spec fn all_values(s: Seq<Pair>) -> bool {
    forall|i: int| 0 <= i < s.len() ==> (#[trigger] s[i]) is Value
}

proof fn lemma_sift_up_keeps(h: Seq<Pair>, pos: int)
    requires
        0 <= pos < h.len(),
    ensures
        sift_up(h, pos).len() == h.len(),
        same_elems(h, sift_up(h, pos)),
        wsum(sift_up(h, pos)) == wsum(h),
        all_values(h) ==> all_values(sift_up(h, pos)),
    decreases pos,
{
    if pos > 0 {
        let parent = (pos - 1) / 2;
        if !(prob_of(h[pos]) <= prob_of(h[parent])) {
            lemma_wsum_swap(h, pos, parent);
            lemma_swap_same(h, pos, parent);
            lemma_sift_up_keeps(swap_at(h, pos, parent), parent);
        }
    }
}

proof fn lemma_sift_down_keeps(h: Seq<Pair>, pos: int)
    requires
        0 <= pos < h.len(),
    ensures
        sift_down_to_bottom(h, pos).len() == h.len(),
        same_elems(h, sift_down_to_bottom(h, pos)),
        wsum(sift_down_to_bottom(h, pos)) == wsum(h),
        all_values(h) ==> all_values(sift_down_to_bottom(h, pos)),
    decreases h.len() - pos,
{
    let end = h.len() as int;
    let child = 2 * pos + 1;
    if end >= 2 && child <= end - 2 {
        let c = if prob_of(h[child]) <= prob_of(h[child + 1]) {
            child + 1
        } else {
            child
        };
        lemma_wsum_swap(h, pos, c);
        lemma_swap_same(h, pos, c);
        lemma_sift_down_keeps(swap_at(h, pos, c), c);
    } else if child == end - 1 {
        lemma_wsum_swap(h, pos, child);
        lemma_swap_same(h, pos, child);
        lemma_sift_up_keeps(swap_at(h, pos, child), child);
    } else {
        lemma_sift_up_keeps(h, pos);
    }
}

/// Pushing adds the entry and its count.
proof fn lemma_push_keeps(h: Seq<Pair>, x: Pair)
    ensures
        heap_push(h, x).len() == h.len() + 1,
        forall|e: Pair| #[trigger] heap_push(h, x).contains(e) <==> (h.contains(e) || e == x),
        wsum(heap_push(h, x)) == wsum(h) + weight(x),
        all_values(h) && x is Value ==> all_values(heap_push(h, x)),
{
    assert(h.push(x).drop_last() =~= h);
    lemma_sift_up_keeps(h.push(x), h.len() as int);
    assert forall|e: Pair| h.push(x).contains(e) <==> (h.contains(e) || e == x) by {
        if h.contains(e) {
            let k = choose|k: int| 0 <= k < h.len() && h[k] == e;
            assert(h.push(x)[k] == e);
        }
        if e == x {
            assert(h.push(x)[h.len() as int] == e);
        }
        if h.push(x).contains(e) && e != x {
            let k = choose|k: int| 0 <= k < h.len() + 1 && h.push(x)[k] == e;
            assert(h[k] == e);
        }
    }
}

/// Popping removes one entry and its count.
proof fn lemma_pop_keeps(h: Seq<Pair>)
    requires
        h.len() > 0,
    ensures
        heap_pop(h).1.len() == h.len() - 1,
        h.contains(heap_pop(h).0),
        forall|e: Pair| #[trigger] h.contains(e) ==> e == heap_pop(h).0 || heap_pop(h).1.contains(e),
        forall|e: Pair| #[trigger] heap_pop(h).1.contains(e) ==> h.contains(e),
        wsum(heap_pop(h).1) + weight(heap_pop(h).0) == wsum(h),
        all_values(h) ==> all_values(heap_pop(h).1) && heap_pop(h).0 is Value,
{
    let rest = h.drop_last();
    if rest.len() > 0 {
        let u = rest.update(0, h.last());
        lemma_wsum_update(rest, 0, h.last());
        lemma_sift_down_keeps(u, 0);
        assert(all_values(h) ==> all_values(u));
        assert(h[0] == heap_pop(h).0);
        assert forall|e: Pair| #[trigger] h.contains(e) implies e == heap_pop(h).0 || heap_pop(h).1.contains(e) by {
            let k = choose|k: int| 0 <= k < h.len() && h[k] == e;
            if k == h.len() - 1 {
                assert(u[0] == e);
            } else if k > 0 {
                assert(u[k] == e);
            }
        }
        assert forall|e: Pair| #[trigger] heap_pop(h).1.contains(e) implies h.contains(e) by {
            assert(u.contains(e));
            let k = choose|k: int| 0 <= k < u.len() && u[k] == e;
            if k == 0 {
                assert(h[h.len() - 1] == e);
            } else {
                assert(h[k] == e);
            }
        }
    } else {
        assert(h[h.len() - 1] == heap_pop(h).0);
        assert forall|e: Pair| #[trigger] h.contains(e) implies e == heap_pop(h).0 || heap_pop(h).1.contains(e) by {
            let k = choose|k: int| 0 <= k < h.len() && h[k] == e;
            assert(k == 0);
        }
    }
}

// ---------------------------------------------------------------------------
// Heap order
// ---------------------------------------------------------------------------

/// The index of the parent of entry `i` in the heap array.
pub open spec fn parent_of(i: int) -> int {
    (i - 1) / 2
}

/// Whether `h` is ordered as a binary max-heap: no entry has a higher
/// priority than its parent.
pub open spec fn is_heap(h: Seq<Pair>) -> bool {
    forall|i: int| 0 < i < h.len() ==> prob_of(#[trigger] h[i]) <= prob_of(h[parent_of(i)])
}

/// `h` is a heap but for the entry at `pos`, which may outrank its parent;
/// its children do not outrank its parent.
spec fn heap_but_up(h: Seq<Pair>, pos: int) -> bool {
    &&& 0 <= pos < h.len()
    &&& forall|i: int| 0 < i < h.len() && i != pos ==> prob_of(#[trigger] h[i]) <= prob_of(h[parent_of(i)])
    &&& pos > 0 ==> forall|c: int|
        0 < c < h.len() && parent_of(c) == pos ==> prob_of(#[trigger] h[c]) <= prob_of(h[parent_of(pos)])
}

/// `h` is a heap but for the entry at `pos`, which may stand out of order
/// with its parent and its children; its children do not outrank its parent.
spec fn heap_hole(h: Seq<Pair>, pos: int) -> bool {
    &&& 0 <= pos < h.len()
    &&& forall|i: int|
        0 < i < h.len() && i != pos && parent_of(i) != pos ==> prob_of(#[trigger] h[i]) <= prob_of(h[parent_of(i)])
    &&& pos > 0 ==> forall|c: int|
        0 < c < h.len() && parent_of(c) == pos ==> prob_of(#[trigger] h[c]) <= prob_of(h[parent_of(pos)])
}

proof fn lemma_sift_up_heap(h: Seq<Pair>, pos: int)
    requires
        heap_but_up(h, pos),
    ensures
        is_heap(sift_up(h, pos)),
    decreases pos,
{
    if pos > 0 {
        let p = parent_of(pos);
        if !(prob_of(h[pos]) <= prob_of(h[p])) {
            let g = swap_at(h, pos, p);
            assert forall|i: int| 0 < i < g.len() && i != p implies prob_of(#[trigger] g[i]) <= prob_of(
                g[parent_of(i)],
            ) by {
                if i == pos {
                } else if parent_of(i) == pos {
                    assert(prob_of(h[i]) <= prob_of(h[p]));
                } else if parent_of(i) == p {
                    assert(prob_of(h[i]) <= prob_of(h[p]));
                } else {
                    assert(prob_of(h[i]) <= prob_of(h[parent_of(i)]));
                }
            }
            if p > 0 {
                assert(prob_of(h[p]) <= prob_of(h[parent_of(p)]));
                assert forall|c: int| 0 < c < g.len() && parent_of(c) == p implies prob_of(#[trigger] g[c])
                    <= prob_of(g[parent_of(p)]) by {
                    if c != pos {
                        assert(prob_of(h[c]) <= prob_of(h[p]));
                    }
                }
            }
            lemma_sift_up_heap(g, p);
        }
    }
}

proof fn lemma_sift_down_heap(h: Seq<Pair>, pos: int)
    requires
        heap_hole(h, pos),
    ensures
        is_heap(sift_down_to_bottom(h, pos)),
    decreases h.len() - pos,
{
    let end = h.len() as int;
    let child = 2 * pos + 1;
    if end >= 2 && child <= end - 2 {
        let c = if prob_of(h[child]) <= prob_of(h[child + 1]) {
            child + 1
        } else {
            child
        };
        let g = swap_at(h, pos, c);
        assert(parent_of(child) == pos && parent_of(child + 1) == pos);
        assert forall|i: int| 0 < i < g.len() && i != c && parent_of(i) != c implies prob_of(#[trigger] g[i])
            <= prob_of(g[parent_of(i)]) by {
            if i == pos {
                assert(prob_of(h[c]) <= prob_of(h[parent_of(pos)]));
            } else if parent_of(i) == pos {
                assert(i == child || i == child + 1);
            } else {
                assert(prob_of(h[i]) <= prob_of(h[parent_of(i)]));
            }
        }
        assert forall|d: int| 0 < d < g.len() && parent_of(d) == c implies prob_of(#[trigger] g[d]) <= prob_of(
            g[parent_of(c)],
        ) by {
            assert(prob_of(h[d]) <= prob_of(h[c]));
        }
        lemma_sift_down_heap(g, c);
    } else if child == end - 1 {
        let g = swap_at(h, pos, child);
        assert(parent_of(child) == pos);
        assert forall|i: int| 0 < i < g.len() && i != child implies prob_of(#[trigger] g[i]) <= prob_of(
            g[parent_of(i)],
        ) by {
            if i == pos {
                assert(prob_of(h[child]) <= prob_of(h[parent_of(pos)]));
            } else {
                assert(parent_of(i) != pos);
                assert(prob_of(h[i]) <= prob_of(h[parent_of(i)]));
            }
        }
        lemma_sift_up_heap(g, child);
    } else {
        assert forall|i: int| 0 < i < h.len() && i != pos implies prob_of(#[trigger] h[i]) <= prob_of(
            h[parent_of(i)],
        ) by {
            assert(parent_of(i) != pos);
        }
        lemma_sift_up_heap(h, pos);
    }
}

proof fn lemma_heap_root_max(h: Seq<Pair>, i: int)
    requires
        is_heap(h),
        0 <= i < h.len(),
    ensures
        prob_of(h[i]) <= prob_of(h[0]),
    decreases i,
{
    if i > 0 {
        assert(prob_of(h[i]) <= prob_of(h[parent_of(i)]));
        lemma_heap_root_max(h, parent_of(i));
    }
}

/// Pushing onto a heap gives a heap.
pub proof fn lemma_push_heap(h: Seq<Pair>, x: Pair)
    requires
        is_heap(h),
    ensures
        is_heap(heap_push(h, x)),
{
    let g = h.push(x);
    assert forall|i: int| 0 < i < g.len() && i != h.len() implies prob_of(#[trigger] g[i]) <= prob_of(
        g[parent_of(i)],
    ) by {
        assert(prob_of(h[i]) <= prob_of(h[parent_of(i)]));
    }
    lemma_sift_up_heap(g, h.len() as int);
}

/// Popping a heap takes an entry of highest priority, that is of lowest
/// count, and leaves a heap.
pub proof fn lemma_pop_heap(h: Seq<Pair>)
    requires
        is_heap(h),
        h.len() > 0,
    ensures
        is_heap(heap_pop(h).1),
        forall|e: Pair| #[trigger] h.contains(e) ==> prob_of(e) <= prob_of(heap_pop(h).0),
        forall|e: Pair| #[trigger] h.contains(e) ==> weight(heap_pop(h).0) <= weight(e),
{
    let rest = h.drop_last();
    assert forall|e: Pair| #[trigger] h.contains(e) implies prob_of(e) <= prob_of(h[0]) by {
        let k = choose|k: int| 0 <= k < h.len() && h[k] == e;
        lemma_heap_root_max(h, k);
    }
    if rest.len() > 0 {
        let u = rest.update(0, h.last());
        assert forall|i: int| 0 < i < u.len() && i != 0 && parent_of(i) != 0 implies prob_of(#[trigger] u[i])
            <= prob_of(u[parent_of(i)]) by {
            assert(prob_of(h[i]) <= prob_of(h[parent_of(i)]));
        }
        lemma_sift_down_heap(u, 0);
    }
}

// ---------------------------------------------------------------------------
// Building the tree
// ---------------------------------------------------------------------------

/// The heap after pushing every symbol of count `freqs[i] > 0` for `i < n`.
pub open spec fn initial_heap(freqs: Seq<u32>, n: int) -> Seq<Pair>
    decreases n,
{
    if n <= 0 {
        Seq::<Pair>::empty()
    } else {
        let h = initial_heap(freqs, n - 1);
        if freqs[n - 1] > 0 {
            heap_push(h, Pair::Value((n - 1) as u8, (u32::MAX - freqs[n - 1]) as u32))
        } else {
            h
        }
    }
}

proof fn lemma_initial_heap(freqs: Seq<u32>, n: int)
    requires
        0 <= n <= freqs.len(),
    ensures
        initial_heap(freqs, n).len() == count_nonzero(freqs, n),
        wsum(initial_heap(freqs, n)) == freq_total(freqs, n),
        all_values(initial_heap(freqs, n)),
        count_nonzero(freqs, n) <= n,
    decreases n,
{
    if n > 0 {
        lemma_initial_heap(freqs, n - 1);
        if freqs[n - 1] > 0 {
            lemma_push_keeps(
                initial_heap(freqs, n - 1),
                Pair::Value((n - 1) as u8, (u32::MAX - freqs[n - 1]) as u32),
            );
        }
    }
}

/// The node that joins two popped entries: a symbol side finishes, a built
/// node side continues.
pub open spec fn merged_node(v1: Pair, v2: Pair) -> Node {
    match (v1, v2) {
        (Pair::Pointer(a, _), Pair::Pointer(b, _)) => Node::Continuation(a, b),
        (Pair::Value(a, _), Pair::Pointer(b, _)) => Node::LeftFinish(a, b),
        (Pair::Pointer(a, _), Pair::Value(b, _)) => Node::RightFinish(a, b),
        (Pair::Value(a, _), Pair::Value(b, _)) => Node::BothFinish(a, b),
    }
}

/// The priority of the joined entry: `u32::MAX` minus the summed counts.
pub open spec fn merged_prob(v1: Pair, v2: Pair) -> u32 {
    (u32::MAX - (weight(v1) + weight(v2))) as u32
}

/// The merge loop: while two entries are left, pop the two of highest
/// priority, store their node at index `cur - 1` and push it back.
pub open spec fn build_tree(heap: Seq<Pair>, arr: Seq<Node>, cur: int, fuel: nat) -> (Seq<Node>, int)
    decreases fuel,
{
    if fuel == 0 || heap.len() <= 1 {
        (arr, cur)
    } else {
        let (v1, h1) = heap_pop(heap);
        let (v2, h2) = heap_pop(h1);
        let c = cur - 1;
        build_tree(
            heap_push(h2, Pair::Pointer(c as u8, merged_prob(v1, v2))),
            arr.update(c, merged_node(v1, v2)),
            c,
            (fuel - 1) as nat,
        )
    }
}

/// Whether every step of the merge loop started on `heap` joins two entries
/// of lowest count: the first popped weighs no more than any entry of the
/// heap, the second no more than any entry left after the first.
pub open spec fn merges_lightest(heap: Seq<Pair>, cur: int, fuel: nat) -> bool
    decreases fuel,
{
    if fuel == 0 || heap.len() <= 1 {
        true
    } else {
        let (v1, h1) = heap_pop(heap);
        let (v2, h2) = heap_pop(h1);
        &&& forall|e: Pair| #[trigger] heap.contains(e) ==> weight(v1) <= weight(e)
        &&& forall|e: Pair| #[trigger] h1.contains(e) ==> weight(v2) <= weight(e)
        &&& merges_lightest(
            heap_push(h2, Pair::Pointer((cur - 1) as u8, merged_prob(v1, v2))),
            cur - 1,
            (fuel - 1) as nat,
        )
    }
}

proof fn lemma_merges_from_heap(heap: Seq<Pair>, cur: int, fuel: nat)
    requires
        is_heap(heap),
    ensures
        merges_lightest(heap, cur, fuel),
    decreases fuel,
{
    if fuel > 0 && heap.len() > 1 {
        let (v1, h1) = heap_pop(heap);
        lemma_pop_heap(heap);
        lemma_pop_keeps(heap);
        let (v2, h2) = heap_pop(h1);
        lemma_pop_heap(h1);
        let x = Pair::Pointer((cur - 1) as u8, merged_prob(v1, v2));
        lemma_push_heap(h2, x);
        lemma_merges_from_heap(heap_push(h2, x), cur - 1, (fuel - 1) as nat);
    }
}

proof fn lemma_initial_heap_ordered(freqs: Seq<u32>, n: int)
    ensures
        is_heap(initial_heap(freqs, n)),
    decreases n,
{
    if n > 0 {
        lemma_initial_heap_ordered(freqs, n - 1);
        if freqs[n - 1] > 0 {
            lemma_push_heap(
                initial_heap(freqs, n - 1),
                Pair::Value((n - 1) as u8, (u32::MAX - freqs[n - 1]) as u32),
            );
        }
    }
}

/// The code tree is built by joining, at every step, the two entries of
/// lowest count (the heap that `spec_slovar` merges from, with its start).
pub proof fn lemma_slovar_merges_lightest(freqs: Seq<u32>)
    ensures
        merges_lightest(initial_heap(freqs, 256), 255, 256),
{
    lemma_initial_heap_ordered(freqs, 256);
    lemma_merges_from_heap(initial_heap(freqs, 256), 255, 256);
}

/// The total count of the symbols under node `i` of the tree array `arr`:
/// a `Finish` side adds the count of its symbol, a continuing side the total
/// of the node it points to (a node only points to nodes of higher index).
pub open spec fn node_total(freqs: Seq<u32>, arr: Seq<Node>, i: int) -> int
    decreases 256 - i,
{
    if i < 0 || i >= 256 {
        0
    } else {
        match arr[i] {
            Node::Continuation(a, b) => (if a as int > i {
                node_total(freqs, arr, a as int)
            } else {
                0
            }) + (if b as int > i {
                node_total(freqs, arr, b as int)
            } else {
                0
            }),
            Node::LeftFinish(a, b) => freqs[a as int] + (if b as int > i {
                node_total(freqs, arr, b as int)
            } else {
                0
            }),
            Node::RightFinish(a, b) => (if a as int > i {
                node_total(freqs, arr, a as int)
            } else {
                0
            }) + freqs[b as int],
            Node::BothFinish(a, b) => freqs[a as int] + freqs[b as int],
        }
    }
}

/// The total count of the symbols that a heap entry stands for: its
/// symbol's count, or the total under the node it points to.
pub open spec fn entry_total(freqs: Seq<u32>, arr: Seq<Node>, e: Pair) -> int {
    match e {
        Pair::Value(a, _) => freqs[a as int] as int,
        Pair::Pointer(i, _) => node_total(freqs, arr, i as int),
    }
}

/// The totals under the two branches of node `i`: the branch taken on bit
/// 0, then the branch taken on bit 1.
pub open spec fn branch_totals(freqs: Seq<u32>, arr: Seq<Node>, i: int) -> (int, int) {
    let below = |x: u8| if x as int > i { node_total(freqs, arr, x as int) } else { 0 };
    match arr[i] {
        Node::Continuation(a, b) => (below(a), below(b)),
        Node::LeftFinish(a, b) => (freqs[a as int] as int, below(b)),
        Node::RightFinish(a, b) => (below(a), freqs[b as int] as int),
        Node::BothFinish(a, b) => (freqs[a as int] as int, freqs[b as int] as int),
    }
}

/// Whether the merge loop started on `heap`, with the tree array `arr`, is
/// Huffman's algorithm: at every step each entry weighs the total count of
/// the symbols under it in the tree built so far, the two entries joined
/// have the least totals (the first the least of all, the second the least
/// of the rest), and the node that joins them has the lighter one on its
/// bit-0 branch.
pub open spec fn huffman_steps(freqs: Seq<u32>, heap: Seq<Pair>, arr: Seq<Node>, cur: int, fuel: nat) -> bool
    decreases fuel,
{
    &&& forall|e: Pair| #[trigger] heap.contains(e) ==> weight(e) == entry_total(freqs, arr, e)
    &&& if fuel == 0 || heap.len() <= 1 {
        true
    } else {
        let (v1, h1) = heap_pop(heap);
        let (v2, h2) = heap_pop(h1);
        let c = cur - 1;
        &&& forall|e: Pair| #[trigger] heap.contains(e) ==> entry_total(freqs, arr, v1) <= entry_total(freqs, arr, e)
        &&& forall|e: Pair| #[trigger] h1.contains(e) ==> entry_total(freqs, arr, v2) <= entry_total(freqs, arr, e)
        &&& branch_totals(freqs, arr.update(c, merged_node(v1, v2)), c).0 <= branch_totals(
            freqs,
            arr.update(c, merged_node(v1, v2)),
            c,
        ).1
        &&& huffman_steps(
            freqs,
            heap_push(h2, Pair::Pointer(c as u8, merged_prob(v1, v2))),
            arr.update(c, merged_node(v1, v2)),
            c,
            (fuel - 1) as nat,
        )
    }
}

/// The total under node `i` reads only the nodes from `i` on.
proof fn lemma_node_total_frame(freqs: Seq<u32>, a1: Seq<Node>, a2: Seq<Node>, i: int)
    requires
        forall|j: int| i <= j < 256 ==> a1[j] == a2[j],
    ensures
        node_total(freqs, a1, i) == node_total(freqs, a2, i),
    decreases 256 - i,
{
    if 0 <= i < 256 {
        assert(a1[i] == a2[i]);
        match a1[i] {
            Node::Continuation(a, b) => {
                if a as int > i {
                    lemma_node_total_frame(freqs, a1, a2, a as int);
                }
                if b as int > i {
                    lemma_node_total_frame(freqs, a1, a2, b as int);
                }
            },
            Node::LeftFinish(a, b) => {
                if b as int > i {
                    lemma_node_total_frame(freqs, a1, a2, b as int);
                }
            },
            Node::RightFinish(a, b) => {
                if a as int > i {
                    lemma_node_total_frame(freqs, a1, a2, a as int);
                }
            },
            Node::BothFinish(a, b) => {},
        }
    }
}

/// What the merge loop keeps: a heap of symbol entries carrying their counts
/// and node entries at indices from `cur` on weighing their totals.
spec fn huffman_inv(freqs: Seq<u32>, heap: Seq<Pair>, arr: Seq<Node>, cur: int) -> bool {
    &&& freqs.len() == 256
    &&& arr.len() == 256
    &&& is_heap(heap)
    &&& 0 <= cur <= 255
    &&& heap.len() <= cur + 1
    &&& heap.len() <= 1 || wsum(heap) <= u32::MAX
    &&& forall|e: Pair| #[trigger]
        heap.contains(e) ==> match e {
            Pair::Value(a, p) => p == u32::MAX - freqs[a as int],
            Pair::Pointer(i, _) => cur <= i < 255 && weight(e) == node_total(freqs, arr, i as int),
        }
}

proof fn lemma_build_steps(freqs: Seq<u32>, heap: Seq<Pair>, arr: Seq<Node>, cur: int, fuel: nat)
    requires
        huffman_inv(freqs, heap, arr, cur),
    ensures
        huffman_steps(freqs, heap, arr, cur, fuel),
    decreases fuel,
{
    assert forall|e: Pair| #[trigger] heap.contains(e) implies weight(e) == entry_total(freqs, arr, e) by {
        match e {
            Pair::Value(a, p) => {},
            Pair::Pointer(i, p) => {},
        }
    }
    if fuel > 0 && heap.len() > 1 {
        let (v1, h1) = heap_pop(heap);
        let (v2, h2) = heap_pop(h1);
        let c = cur - 1;
        lemma_pop_heap(heap);
        lemma_pop_keeps(heap);
        lemma_pop_heap(h1);
        lemma_pop_keeps(h1);
        lemma_wsum_nonneg(h2);
        assert(heap.contains(v1));
        assert(h1.contains(v2) && heap.contains(v2));
        let arr2 = arr.update(c, merged_node(v1, v2));
        let x = Pair::Pointer(c as u8, merged_prob(v1, v2));
        let heap2 = heap_push(h2, x);
        lemma_push_heap(h2, x);
        lemma_push_keeps(h2, x);
        assert(weight(x) == weight(v1) + weight(v2));
        assert forall|e: Pair| #[trigger] heap.contains(e) && e is Pointer implies entry_total(freqs, arr2, e)
            == entry_total(freqs, arr, e) by {
            lemma_node_total_frame(freqs, arr2, arr, e->Pointer_0 as int);
        }
        assert(entry_total(freqs, arr2, v1) == weight(v1));
        assert(entry_total(freqs, arr2, v2) == weight(v2));
        assert(node_total(freqs, arr2, c) == weight(x));
        assert(branch_totals(freqs, arr2, c) == (weight(v1), weight(v2)));
        assert forall|e: Pair| #[trigger] heap2.contains(e) implies match e {
            Pair::Value(a, p) => p == u32::MAX - freqs[a as int],
            Pair::Pointer(i, _) => c <= i < 255 && weight(e) == node_total(freqs, arr2, i as int),
        } by {
            if e != x {
                assert(h2.contains(e));
                assert(h1.contains(e));
                assert(heap.contains(e));
            }
        }
        assert(heap2.len() == heap.len() - 1);
        assert(wsum(heap2) == wsum(heap));
        lemma_build_steps(freqs, heap2, arr2, c, (fuel - 1) as nat);
    }
}

/// Every entry of the heap that the tree is built from stands for one
/// symbol, with priority `u32::MAX` minus its count.
proof fn lemma_initial_entries(freqs: Seq<u32>, n: int)
    requires
        0 <= n <= 256,
        freqs.len() == 256,
    ensures
        forall|e: Pair| #[trigger]
            initial_heap(freqs, n).contains(e) ==> match e {
                Pair::Value(a, p) => p == u32::MAX - freqs[a as int],
                Pair::Pointer(_, _) => false,
            },
    decreases n,
{
    if n > 0 {
        lemma_initial_entries(freqs, n - 1);
        if freqs[n - 1] > 0 {
            let x = Pair::Value((n - 1) as u8, (u32::MAX - freqs[n - 1]) as u32);
            lemma_push_keeps(initial_heap(freqs, n - 1), x);
            assert(((n - 1) as u8) as int == n - 1);
        }
    }
}

/// `slovar` builds its tree by Huffman's algorithm: each entry of the merge
/// loop weighs the total count of the symbols under it (a joined node the
/// sum of its two parts), every step joins the two entries of least total,
/// and the lighter of the two goes on the bit-0 branch.
pub proof fn lemma_slovar_is_huffman(freqs: Seq<u32>)
    requires
        freqs.len() == 256,
        tree_fits(freqs),
    ensures
        huffman_steps(freqs, initial_heap(freqs, 256), blank_tree(), 255, 256),
{
    let h = initial_heap(freqs, 256);
    lemma_initial_heap(freqs, 256);
    lemma_initial_heap_ordered(freqs, 256);
    lemma_initial_entries(freqs, 256);
    assert(huffman_inv(freqs, h, blank_tree(), 255));
    lemma_build_steps(freqs, h, blank_tree(), 255, 256);
}

/// The symbol of a `Value` entry.
pub open spec fn symbol_of(p: Pair) -> u8 {
    match p {
        Pair::Value(a, _) => a,
        Pair::Pointer(a, _) => a,
    }
}

/// The unset nodes of the tree array.
pub open spec fn blank_tree() -> Seq<Node> {
    Seq::new(256, |i: int| Node::Continuation(0, 0))
}

/// What `slovar` returns: the code tree for the counts `freqs`, its root at
/// index 0.  With one symbol `s` the root holds `s` and `s + 1` (wrapping);
/// with none it holds 0 and 1.
pub open spec fn spec_slovar(freqs: Seq<u32>) -> Seq<Node> {
    let h = initial_heap(freqs, 256);
    if h.len() == 1 {
        let val = symbol_of(h[0]);
        blank_tree().update(0, Node::BothFinish(val, val.wrapping_add(1)))
    } else if h.len() == 0 {
        blank_tree().update(0, Node::BothFinish(0, 1))
    } else {
        let (arr, cur) = build_tree(h, blank_tree(), 255, 256);
        arr.update(0, arr[cur])
    }
}

/// Whether building the tree for `freqs` stays within `u32`: at most one
/// symbol occurs, or the counts add up to at most `u32::MAX`.
pub open spec fn tree_fits(freqs: Seq<u32>) -> bool {
    count_nonzero(freqs, 256) <= 1 || freq_total(freqs, 256) <= u32::MAX
}

/// Builds the code tree for the symbol counts `freqs` by merging the two
/// entries of lowest count first (the order of `BinaryHeap` breaking ties).
/// It panics, adding counts past `u32::MAX`, unless `tree_fits(freqs)`.
fn slovar(freqs: &[u32; 256]) -> (r: [Node; 256])
    requires
        tree_fits(freqs@),
    ensures
        r@ == spec_slovar(freqs@),
{
    let mut heap: Vec<Pair> = Vec::with_capacity(256);
    let mut i: usize = 0;
    while i < 256
        invariant
            freqs@.len() == 256,
            i <= 256,
            heap@ == initial_heap(freqs@, i as int),
            heap@.len() <= i,
        decreases 256 - i,
    {
        proof {
            lemma_initial_heap(freqs@, i as int + 1);
        }
        if freqs[i] > 0 {
            heap_push_exec(&mut heap, Pair::Value(i as u8, u32::MAX - freqs[i]));
        }
        i += 1;
    }
    let ghost h0 = heap@;
    proof {
        lemma_initial_heap(freqs@, 256);
    }
    let mut arr = [Node::Continuation(0, 0); 256];
    assert(arr@ =~= blank_tree());
    if heap.len() == 1 {
        let val = heap_pop_exec(&mut heap).unwrap().value().unwrap();
        arr[0] = Node::BothFinish(val, val.wrapping_add(1));
        assert(arr@ =~= spec_slovar(freqs@));
        return arr;
    } else if heap.len() == 0 {
        arr[0] = Node::BothFinish(0, 1);
        assert(arr@ =~= spec_slovar(freqs@));
        return arr;
    }
    let mut cur: u8 = 255;
    while heap.len() > 1
        invariant
            h0 == initial_heap(freqs@, 256),
            h0.len() >= 2,
            h0.len() <= 256,
            wsum(h0) == freq_total(freqs@, 256),
            freq_total(freqs@, 256) <= u32::MAX,
            heap@.len() >= 1,
            cur as int == 255 - (h0.len() - heap@.len()),
            wsum(heap@) == wsum(h0),
            build_tree(heap@, arr@, cur as int, (cur + 1) as nat) == build_tree(h0, blank_tree(), 255, 256),
        decreases heap@.len(),
    {
        proof {
            lemma_pop_keeps(heap@);
            lemma_pop_keeps(heap_pop(heap@).1);
            lemma_wsum_nonneg(heap_pop(heap_pop(heap@).1).1);
        }
        cur -= 1;
        let v1 = heap_pop_exec(&mut heap).unwrap();
        let v2 = heap_pop_exec(&mut heap).unwrap();
        let prob = u32::MAX - ((u32::MAX - v1.prob()) + (u32::MAX - v2.prob()));
        arr[cur as usize] = match (v1, v2) {
            (Pair::Pointer(a, _), Pair::Pointer(b, _)) => Node::Continuation(a, b),
            (Pair::Value(a, _), Pair::Pointer(b, _)) => Node::LeftFinish(a, b),
            (Pair::Pointer(a, _), Pair::Value(b, _)) => Node::RightFinish(a, b),
            (Pair::Value(a, _), Pair::Value(b, _)) => Node::BothFinish(a, b),
        };
        let ghost h2 = heap@;
        proof {
            lemma_push_keeps(h2, Pair::Pointer(cur, prob));
        }
        heap_push_exec(&mut heap, Pair::Pointer(cur, prob));
    }
    arr[0] = arr[cur as usize];
    assert(arr@ =~= spec_slovar(freqs@));
    arr
}

// ---------------------------------------------------------------------------
// Shape of the tree
// ---------------------------------------------------------------------------

/// Whether `c` may be the index of a child of node `k`: a built node above
/// `k`, at `lo` or above.
pub open spec fn child_ok(c: int, k: int, lo: int) -> bool {
    k < c < 255 && lo <= c
}

/// Whether node `n`, stored at index `k`, points only at built nodes above it.
pub open spec fn node_ok(n: Node, k: int, lo: int) -> bool {
    match n {
        Node::Continuation(a, b) => child_ok(a as int, k, lo) && child_ok(b as int, k, lo),
        Node::LeftFinish(_, b) => child_ok(b as int, k, lo),
        Node::RightFinish(a, _) => child_ok(a as int, k, lo),
        Node::BothFinish(_, _) => true,
    }
}

/// Whether every built node from `lo` up (indices `lo .. 255`) points only
/// at built nodes above it.
pub open spec fn region_ok(arr: Seq<Node>, lo: int) -> bool {
    &&& arr.len() == 256
    &&& 0 <= lo <= 255
    &&& forall|k: int| lo <= k < 255 ==> node_ok(#[trigger] arr[k], k, lo)
}

/// Whether `arr` is a code tree: its root at index 0 and its built nodes
/// from `lo` up point only at built nodes above them.
pub open spec fn tree_wf(arr: Seq<Node>, lo: int) -> bool {
    region_ok(arr, lo) && node_ok(arr[0], 0, lo)
}

/// The symbols at the leaves below node `k`.
pub open spec fn leaves(arr: Seq<Node>, k: int) -> Set<u8>
    decreases 255 - k,
{
    if k < 0 || k >= 255 || arr.len() != 256 {
        Set::<u8>::empty()
    } else {
        let below = |c: u8| if k < c < 255 { leaves(arr, c as int) } else { Set::<u8>::empty() };
        match arr[k] {
            Node::Continuation(a, b) => below(a).union(below(b)),
            Node::LeftFinish(a, b) => below(b).insert(a),
            Node::RightFinish(a, b) => below(a).insert(b),
            Node::BothFinish(a, b) => Set::<u8>::empty().insert(a).insert(b),
        }
    }
}

/// Changing a node below `c` leaves the symbols below `c` unchanged.
proof fn lemma_leaves_frame(arr: Seq<Node>, j: int, x: Node, c: int)
    requires
        arr.len() == 256,
        0 <= j < c < 255,
    ensures
        leaves(arr.update(j, x), c) == leaves(arr, c),
    decreases 255 - c,
{
    let arr2 = arr.update(j, x);
    assert(arr2[c] == arr[c]);
    match arr[c] {
        Node::Continuation(a, b) => {
            if c < a < 255 {
                lemma_leaves_frame(arr, j, x, a as int);
            }
            if c < b < 255 {
                lemma_leaves_frame(arr, j, x, b as int);
            }
        },
        Node::LeftFinish(_, b) => {
            if c < b < 255 {
                lemma_leaves_frame(arr, j, x, b as int);
            }
        },
        Node::RightFinish(a, _) => {
            if c < a < 255 {
                lemma_leaves_frame(arr, j, x, a as int);
            }
        },
        Node::BothFinish(_, _) => {},
    }
}

/// The symbols that a heap entry stands for.
pub open spec fn entry_symbols(arr: Seq<Node>, p: Pair) -> Set<u8> {
    match p {
        Pair::Value(a, _) => Set::<u8>::empty().insert(a),
        Pair::Pointer(c, _) => leaves(arr, c as int),
    }
}

/// Whether the pointers of a heap entry name built nodes from `lo` up.
pub open spec fn entry_ok(p: Pair, lo: int) -> bool {
    p is Pointer ==> lo <= symbol_of(p) < 255
}

/// Whether some entry of `heap` stands for symbol `s`.
pub open spec fn covers(heap: Seq<Pair>, arr: Seq<Node>, s: u8) -> bool {
    exists|e: Pair| heap.contains(e) && #[trigger] entry_symbols(arr, e).contains(s)
}

/// What the merge loop keeps: the heap names built nodes, the built nodes
/// form a region of the tree, and every symbol that occurs is under some
/// entry of the heap.
pub open spec fn build_inv(freqs: Seq<u32>, heap: Seq<Pair>, arr: Seq<Node>, cur: int) -> bool {
    &&& region_ok(arr, cur)
    &&& forall|e: Pair| heap.contains(e) ==> #[trigger] entry_ok(e, cur)
    &&& forall|s: u8| freqs[s as int] > 0 ==> #[trigger] covers(heap, arr, s)
}

/// The starting heap holds every symbol that occurs.
proof fn lemma_initial_heap_contains(freqs: Seq<u32>, n: int)
    requires
        0 <= n <= freqs.len(),
        n <= 256,
    ensures
        forall|s: u8| (s as int) < n && freqs[s as int] > 0 ==> #[trigger] initial_heap(freqs, n).contains(
            Pair::Value(s, (u32::MAX - freqs[s as int]) as u32),
        ),
        forall|e: Pair| initial_heap(freqs, n).contains(e) ==> #[trigger] entry_ok(e, 255),
    decreases n,
{
    if n > 0 {
        lemma_initial_heap_contains(freqs, n - 1);
        let h = initial_heap(freqs, n - 1);
        if freqs[n - 1] > 0 {
            lemma_push_keeps(h, Pair::Value((n - 1) as u8, (u32::MAX - freqs[n - 1]) as u32));
        }
    }
}

/// The merge loop keeps `build_inv`.
proof fn lemma_build_step(freqs: Seq<u32>, heap: Seq<Pair>, arr: Seq<Node>, cur: int)
    requires
        build_inv(freqs, heap, arr, cur),
        heap.len() > 1,
        1 <= cur <= 255,
        freqs.len() == 256,
    ensures
        ({
            let (v1, h1) = heap_pop(heap);
            let (v2, h2) = heap_pop(h1);
            let c = cur - 1;
            build_inv(
                freqs,
                heap_push(h2, Pair::Pointer(c as u8, merged_prob(v1, v2))),
                arr.update(c, merged_node(v1, v2)),
                c,
            )
        }),
{
    let (v1, h1) = heap_pop(heap);
    let (v2, h2) = heap_pop(h1);
    let c = cur - 1;
    let x = Pair::Pointer(c as u8, merged_prob(v1, v2));
    let nh = heap_push(h2, x);
    let node = merged_node(v1, v2);
    let arr2 = arr.update(c, node);
    lemma_pop_keeps(heap);
    lemma_pop_keeps(h1);
    lemma_push_keeps(h2, x);
    assert(heap.contains(v1));
    assert(h1.contains(v2));
    assert(heap.contains(v2));
    assert(entry_ok(v1, cur));
    assert(entry_ok(v2, cur));
    // the region grows by the new node
    assert(node_ok(node, c, c));
    assert forall|k: int| c <= k < 255 implies node_ok(#[trigger] arr2[k], k, c) by {
        if k > c {
            assert(arr2[k] == arr[k]);
            assert(node_ok(arr[k], k, cur));
        }
    }
    // every entry still names a built node
    assert forall|e: Pair| nh.contains(e) implies #[trigger] entry_ok(e, c) by {
        if e != x {
            assert(h2.contains(e));
            assert(h1.contains(e));
            assert(heap.contains(e));
            assert(entry_ok(e, cur));
        }
    }
    // the new node stands for the symbols of the two popped entries
    assert forall|e: Pair| heap.contains(e) && e is Pointer implies entry_symbols(arr2, e) == entry_symbols(
        arr,
        e,
    ) by {
        assert(entry_ok(e, cur));
        lemma_leaves_frame(arr, c, node, symbol_of(e) as int);
    }
    assert(entry_symbols(arr2, v1).subset_of(entry_symbols(arr2, x))) by {
        if v1 is Pointer {
            lemma_leaves_frame(arr, c, node, symbol_of(v1) as int);
        }
    }
    assert(entry_symbols(arr2, v2).subset_of(entry_symbols(arr2, x))) by {
        if v2 is Pointer {
            lemma_leaves_frame(arr, c, node, symbol_of(v2) as int);
        }
    }
    assert forall|s: u8| freqs[s as int] > 0 implies #[trigger] covers(nh, arr2, s) by {
        assert(covers(heap, arr, s));
        let e = choose|e: Pair| heap.contains(e) && #[trigger] entry_symbols(arr, e).contains(s);
        if e == v1 {
            assert(entry_symbols(arr2, v1).contains(s));
            assert(nh.contains(x) && entry_symbols(arr2, x).contains(s));
        } else if e == v2 {
            assert(entry_symbols(arr2, v2).contains(s));
            assert(nh.contains(x) && entry_symbols(arr2, x).contains(s));
        } else {
            assert(h1.contains(e));
            assert(h2.contains(e));
            assert(nh.contains(e));
            if e is Pointer {
                assert(entry_symbols(arr2, e) == entry_symbols(arr, e));
            }
            assert(entry_symbols(arr2, e).contains(s));
        }
    }
}

/// The tree that the merge loop builds, from a starting state that keeps
/// `build_inv`: it keeps `build_inv` at the end, with one entry left.
proof fn lemma_build(freqs: Seq<u32>, heap: Seq<Pair>, arr: Seq<Node>, cur: int, fuel: nat)
    requires
        build_inv(freqs, heap, arr, cur),
        heap.len() >= 1,
        fuel == cur + 1,
        heap.len() <= cur + 1,
        0 <= cur <= 255,
        freqs.len() == 256,
    ensures
        ({
            let (arr2, cur2) = build_tree(heap, arr, cur, fuel);
            let h2 = build_heap(heap, arr, cur, fuel);
            &&& build_inv(freqs, h2, arr2, cur2)
            &&& h2.len() == 1
            &&& 0 <= cur2 <= cur
            &&& (heap.len() > 1 ==> h2[0] is Pointer && symbol_of(h2[0]) == cur2)
        }),
    decreases fuel,
{
    if heap.len() > 1 {
        let (v1, h1) = heap_pop(heap);
        let (v2, h2) = heap_pop(h1);
        let c = cur - 1;
        let x = Pair::Pointer(c as u8, merged_prob(v1, v2));
        lemma_pop_keeps(heap);
        lemma_pop_keeps(h1);
        lemma_push_keeps(h2, x);
        lemma_build_step(freqs, heap, arr, cur);
        let nh = heap_push(h2, x);
        if nh.len() == 1 {
            assert(nh.contains(x));
            let k = choose|k: int| 0 <= k < nh.len() && nh[k] == x;
            assert(nh[0] == x);
        }
        lemma_build(freqs, nh, arr.update(c, merged_node(v1, v2)), c, (fuel - 1) as nat);
    }
}

/// The heap that the merge loop ends with.
pub open spec fn build_heap(heap: Seq<Pair>, arr: Seq<Node>, cur: int, fuel: nat) -> Seq<Pair>
    decreases fuel,
{
    if fuel == 0 || heap.len() <= 1 {
        heap
    } else {
        let (v1, h1) = heap_pop(heap);
        let (v2, h2) = heap_pop(h1);
        let c = cur - 1;
        build_heap(
            heap_push(h2, Pair::Pointer(c as u8, merged_prob(v1, v2))),
            arr.update(c, merged_node(v1, v2)),
            c,
            (fuel - 1) as nat,
        )
    }
}

/// The lowest index of a built node of the tree for `freqs` (255 when the
/// root is the only node).
pub open spec fn tree_lo(freqs: Seq<u32>) -> int {
    let h = initial_heap(freqs, 256);
    if h.len() >= 2 {
        build_tree(h, blank_tree(), 255, 256).1
    } else {
        255
    }
}

/// The tree for `freqs` is well formed, and every symbol that occurs is at
/// one of its leaves.
pub proof fn lemma_slovar_tree(freqs: Seq<u32>)
    requires
        freqs.len() == 256,
    ensures
        tree_wf(spec_slovar(freqs), tree_lo(freqs)),
        forall|s: u8| freqs[s as int] > 0 ==> #[trigger] leaves(spec_slovar(freqs), 0).contains(s),
{
    let h = initial_heap(freqs, 256);
    lemma_initial_heap(freqs, 256);
    lemma_initial_heap_contains(freqs, 256);
    let t = spec_slovar(freqs);
    assert(blank_tree().len() == 256);
    if h.len() >= 2 {
        assert(region_ok(blank_tree(), 255));
        assert forall|s: u8| freqs[s as int] > 0 implies #[trigger] covers(h, blank_tree(), s) by {
            let e = Pair::Value(s, (u32::MAX - freqs[s as int]) as u32);
            assert(h.contains(e));
            assert(entry_symbols(blank_tree(), e).contains(s));
        }
        assert(build_inv(freqs, h, blank_tree(), 255));
        lemma_build(freqs, h, blank_tree(), 255, 256);
        let (arr, cur) = build_tree(h, blank_tree(), 255, 256);
        let hf = build_heap(h, blank_tree(), 255, 256);
        assert(t == arr.update(0, arr[cur]));
        assert(hf.contains(hf[0]));
        assert(entry_ok(hf[0], cur));
        assert(cur < 255);
        assert(node_ok(arr[cur], cur, cur));
        assert(region_ok(t, cur)) by {
            assert forall|k: int| cur <= k < 255 implies node_ok(#[trigger] t[k], k, cur) by {
                if k == 0 {
                    assert(t[0] == arr[0]);
                }
            }
        }
        assert(node_ok(t[0], 0, cur));
        assert forall|s: u8| freqs[s as int] > 0 implies #[trigger] leaves(t, 0).contains(s) by {
            assert(covers(hf, arr, s));
            let e = choose|e: Pair| hf.contains(e) && #[trigger] entry_symbols(arr, e).contains(s);
            let k = choose|k: int| 0 <= k < hf.len() && hf[k] == e;
            assert(e == hf[0]);
            assert(leaves(arr, cur).contains(s));
            if cur > 0 {
                match arr[cur] {
                    Node::Continuation(a, b) => {
                        lemma_leaves_frame(arr, 0, arr[cur], a as int);
                        lemma_leaves_frame(arr, 0, arr[cur], b as int);
                    },
                    Node::LeftFinish(_, b) => {
                        lemma_leaves_frame(arr, 0, arr[cur], b as int);
                    },
                    Node::RightFinish(a, _) => {
                        lemma_leaves_frame(arr, 0, arr[cur], a as int);
                    },
                    Node::BothFinish(_, _) => {},
                }
            } else {
                assert(t =~= arr);
            }
        }
    } else if h.len() == 1 {
        assert forall|s: u8| freqs[s as int] > 0 implies #[trigger] leaves(t, 0).contains(s) by {
            let e = Pair::Value(s, (u32::MAX - freqs[s as int]) as u32);
            assert(h.contains(e));
            let k = choose|k: int| 0 <= k < h.len() && h[k] == e;
            assert(h[0] == e);
        }
    } else {
        assert forall|s: u8| freqs[s as int] > 0 implies #[trigger] leaves(t, 0).contains(s) by {
            let e = Pair::Value(s, (u32::MAX - freqs[s as int]) as u32);
            assert(h.contains(e));
        }
    }
}

// ---------------------------------------------------------------------------
// Code words
// ---------------------------------------------------------------------------

/// The code words that the walk of `slovar_encode` writes into `m` from node
/// `k` on, `prefix` being the path to `k`: 0 for the first branch, 1 for the
/// second, later words replacing earlier ones of the same symbol.
pub open spec fn insert_codes(arr: Seq<Node>, k: int, prefix: Seq<bool>, m: Map<u8, Seq<bool>>) -> Map<
    u8,
    Seq<bool>,
>
    decreases 255 - k,
{
    if k < 0 || k >= 255 || arr.len() != 256 {
        m
    } else {
        match arr[k] {
            Node::Continuation(a, b) => {
                let m1 = if k < a < 255 {
                    insert_codes(arr, a as int, prefix.push(false), m)
                } else {
                    m
                };
                if k < b < 255 {
                    insert_codes(arr, b as int, prefix.push(true), m1)
                } else {
                    m1
                }
            },
            Node::LeftFinish(a, b) => {
                let m1 = m.insert(a, prefix.push(false));
                if k < b < 255 {
                    insert_codes(arr, b as int, prefix.push(true), m1)
                } else {
                    m1
                }
            },
            Node::RightFinish(a, b) => {
                let m1 = m.insert(b, prefix.push(true));
                if k < a < 255 {
                    insert_codes(arr, a as int, prefix.push(false), m1)
                } else {
                    m1
                }
            },
            Node::BothFinish(a, b) => m.insert(a, prefix.push(false)).insert(b, prefix.push(true)),
        }
    }
}

/// The code word of every symbol of the tree `arr`.
pub open spec fn tree_codes(arr: Seq<Node>) -> Map<u8, Seq<bool>> {
    insert_codes(arr, 0, Seq::<bool>::empty(), Map::<u8, Seq<bool>>::empty())
}

/// Whether node `k` is the root or a built node from `lo` up.
pub open spec fn in_tree(k: int, lo: int) -> bool {
    k == 0 || (lo <= k < 255)
}

/// Writes into `map` the code word of every symbol below node `cur_idx`,
/// `cur_vec` being the path to it.
fn helper(
    slovar: &[Node; 256],
    cur_idx: u8,
    cur_vec: BitVec,
    map: &mut std::collections::HashMap<u8, BitVec>,
    Ghost(lo): Ghost<int>,
)
    requires
        tree_wf(slovar@, lo),
        in_tree(cur_idx as int, lo),
        bits_of(cur_vec).len() <= cur_idx,
    ensures
        code_view(final(map)@) == insert_codes(slovar@, cur_idx as int, bits_of(cur_vec), code_view(old(map)@)),
    decreases 255 - cur_idx,
{
    broadcast use vstd::std_specs::hash::group_hash_axioms;

    let ghost arr = slovar@;
    let ghost target = insert_codes(arr, cur_idx as int, bits_of(cur_vec), code_view(old(map)@));
    let mut idx = cur_idx;
    let mut bits = cur_vec;
    loop
        invariant_except_break
            arr == slovar@,
            tree_wf(arr, lo),
            in_tree(idx as int, lo),
            idx >= cur_idx,
            bits_of(bits).len() <= idx,
            insert_codes(arr, idx as int, bits_of(bits), code_view(map@)) == target,
        ensures
            code_view(map@) == target,
        decreases 255 - idx,
    {
        let ghost p = bits_of(bits);
        let ghost m0 = code_view(map@);
        assert(node_ok(arr[idx as int], idx as int, lo));
        match slovar[idx as usize] {
            Node::Continuation(a, b) => {
                assert(255 - a < 255 - cur_idx);
                bv_push(&mut bits, false);
                helper(slovar, a, bv_clone(&bits), map, Ghost(lo));
                let last = bv_len(&bits) - 1;
                bv_set(&mut bits, last, true);
                assert(bits_of(bits) =~= p.push(true));
                assert(insert_codes(arr, idx as int, p, m0) == insert_codes(
                    arr,
                    b as int,
                    p.push(true),
                    insert_codes(arr, a as int, p.push(false), m0),
                ));
                idx = b;
            },
            Node::LeftFinish(a, b) => {
                bv_push(&mut bits, false);
                let copy = bv_clone(&bits);
                proof {
                    lemma_code_view_insert(map@, a, copy);
                }
                map.insert(a, copy);
                assert(insert_codes(arr, idx as int, p, m0) == insert_codes(
                    arr,
                    b as int,
                    p.push(true),
                    m0.insert(a, p.push(false)),
                ));
                idx = b;
                let last = bv_len(&bits) - 1;
                bv_set(&mut bits, last, true);
                assert(bits_of(bits) =~= p.push(true));
            },
            Node::RightFinish(a, b) => {
                bv_push(&mut bits, true);
                let copy = bv_clone(&bits);
                proof {
                    lemma_code_view_insert(map@, b, copy);
                }
                map.insert(b, copy);
                assert(insert_codes(arr, idx as int, p, m0) == insert_codes(
                    arr,
                    a as int,
                    p.push(false),
                    m0.insert(b, p.push(true)),
                ));
                idx = a;
                let last = bv_len(&bits) - 1;
                bv_set(&mut bits, last, false);
                assert(bits_of(bits) =~= p.push(false));
            },
            Node::BothFinish(a, b) => {
                bv_push(&mut bits, false);
                let copy = bv_clone(&bits);
                proof {
                    lemma_code_view_insert(map@, a, copy);
                }
                map.insert(a, copy);
                let last = bv_len(&bits) - 1;
                bv_set(&mut bits, last, true);
                assert(bits_of(bits) =~= p.push(true));
                proof {
                    lemma_code_view_insert(map@, b, bits);
                }
                map.insert(b, bits);
                break;
            },
        }
    }
}

/// The code word of every symbol in the tree for the counts `freqs`.
fn slovar_encode(freqs: &[u32; 256]) -> (r: std::collections::HashMap<u8, BitVec>)
    requires
        tree_fits(freqs@),
    ensures
        code_view(r@) == tree_codes(spec_slovar(freqs@)),
{
    broadcast use vstd::std_specs::hash::group_hash_axioms;

    let mut map: std::collections::HashMap<u8, BitVec> = std::collections::HashMap::new();
    let sl = slovar(freqs);
    proof {
        lemma_slovar_tree(freqs@);
        assert(code_view(map@) =~= Map::<u8, Seq<bool>>::empty());
    }
    helper(&sl, 0, bv_new(), &mut map, Ghost(tree_lo(freqs@)));
    map
}

/// Whether the path `q` leads from node `k` to a leaf holding `s`, using up
/// every bit of `q`.
pub open spec fn reaches(arr: Seq<Node>, k: int, q: Seq<bool>, s: u8) -> bool
    decreases q.len(),
{
    if q.len() == 0 || k < 0 || k >= arr.len() {
        false
    } else {
        let rest = q.drop_first();
        match arr[k] {
            Node::Continuation(a, b) => if !q[0] {
                reaches(arr, a as int, rest, s)
            } else {
                reaches(arr, b as int, rest, s)
            },
            Node::LeftFinish(a, b) => if !q[0] {
                rest.len() == 0 && a == s
            } else {
                reaches(arr, b as int, rest, s)
            },
            Node::RightFinish(a, b) => if !q[0] {
                reaches(arr, a as int, rest, s)
            } else {
                rest.len() == 0 && b == s
            },
            Node::BothFinish(a, b) => if !q[0] {
                rest.len() == 0 && a == s
            } else {
                rest.len() == 0 && b == s
            },
        }
    }
}

/// Whether the code word `w` of symbol `s` in a map written from node `k`
/// starts with `prefix` and then leads from `k` to `s`.
pub open spec fn word_ok(arr: Seq<Node>, k: int, prefix: Seq<bool>, w: Seq<bool>, s: u8) -> bool {
    &&& w.len() > prefix.len()
    &&& w.len() <= 255
    &&& w.subrange(0, prefix.len() as int) == prefix
    &&& reaches(arr, k, w.subrange(prefix.len() as int, w.len() as int), s)
}

/// The map written from node `k` holds the words of `m` and, for every
/// symbol below `k`, a word that leads to it.
proof fn lemma_insert_codes(arr: Seq<Node>, lo: int, k: int, prefix: Seq<bool>, m: Map<u8, Seq<bool>>)
    requires
        tree_wf(arr, lo),
        in_tree(k, lo),
        prefix.len() <= k,
    ensures
        insert_codes(arr, k, prefix, m).dom() == m.dom().union(leaves(arr, k)),
        forall|s: u8| #[trigger]
            insert_codes(arr, k, prefix, m).dom().contains(s) ==> (m.dom().contains(s) && insert_codes(
                arr,
                k,
                prefix,
                m,
            )[s] == m[s]) || word_ok(arr, k, prefix, insert_codes(arr, k, prefix, m)[s], s),
    decreases 255 - k,
{
    let res = insert_codes(arr, k, prefix, m);
    let p0 = prefix.push(false);
    let p1 = prefix.push(true);
    assert(node_ok(arr[k], k, lo));
    assert(p0.subrange(0, prefix.len() as int) == prefix);
    assert(p1.subrange(0, prefix.len() as int) == prefix);
    // a word that leads from a child also leads from `k` behind its branch bit
    assert forall|w: Seq<bool>, c: int, bit: bool, s: u8|
        #![trigger word_ok(arr, c, prefix.push(bit), w, s)]
        word_ok(arr, c, prefix.push(bit), w, s) && (match arr[k] {
            Node::Continuation(a, b) => (!bit && c == a) || (bit && c == b),
            Node::LeftFinish(_, b) => bit && c == b,
            Node::RightFinish(a, _) => !bit && c == a,
            Node::BothFinish(_, _) => false,
        }) implies word_ok(arr, k, prefix, w, s) by {
        let q = w.subrange(prefix.len() as int, w.len() as int);
        assert(w.subrange(0, prefix.len() as int + 1)[prefix.len() as int] == w[prefix.len() as int]);
        assert(prefix.push(bit)[prefix.len() as int] == bit);
        assert(q[0] == bit);
        assert(q.drop_first() =~= w.subrange(prefix.len() as int + 1, w.len() as int));
        assert(w.subrange(0, prefix.len() as int) =~= w.subrange(0, prefix.len() as int + 1).subrange(
            0,
            prefix.len() as int,
        ));
    }
    match arr[k] {
        Node::Continuation(a, b) => {
            lemma_insert_codes(arr, lo, a as int, p0, m);
            let m1 = insert_codes(arr, a as int, p0, m);
            lemma_insert_codes(arr, lo, b as int, p1, m1);
            assert(res.dom() =~= m.dom().union(leaves(arr, k)));
        },
        Node::LeftFinish(a, b) => {
            let m1 = m.insert(a, p0);
            assert(reaches(arr, k, p0.subrange(prefix.len() as int, p0.len() as int), a)) by {
                assert(p0.subrange(prefix.len() as int, p0.len() as int) =~= seq![false]);
            }
            lemma_insert_codes(arr, lo, b as int, p1, m1);
            assert(res.dom() =~= m.dom().union(leaves(arr, k)));
        },
        Node::RightFinish(a, b) => {
            let m1 = m.insert(b, p1);
            assert(reaches(arr, k, p1.subrange(prefix.len() as int, p1.len() as int), b)) by {
                assert(p1.subrange(prefix.len() as int, p1.len() as int) =~= seq![true]);
            }
            lemma_insert_codes(arr, lo, a as int, p0, m1);
            assert(res.dom() =~= m.dom().union(leaves(arr, k)));
        },
        Node::BothFinish(a, b) => {
            assert(reaches(arr, k, p0.subrange(prefix.len() as int, p0.len() as int), a)) by {
                assert(p0.subrange(prefix.len() as int, p0.len() as int) =~= seq![false]);
            }
            assert(reaches(arr, k, p1.subrange(prefix.len() as int, p1.len() as int), b)) by {
                assert(p1.subrange(prefix.len() as int, p1.len() as int) =~= seq![true]);
            }
            assert(res.dom() =~= m.dom().union(leaves(arr, k)));
        },
    }
}

/// Every symbol of the tree has a code word that leads from the root to it.
pub proof fn lemma_tree_codes(arr: Seq<Node>, lo: int)
    requires
        tree_wf(arr, lo),
    ensures
        tree_codes(arr).dom() == leaves(arr, 0),
        forall|s: u8| #[trigger]
            tree_codes(arr).dom().contains(s) ==> tree_codes(arr)[s].len() >= 1 && tree_codes(arr)[s].len()
                <= 255 && reaches(arr, 0, tree_codes(arr)[s], s),
{
    let e = Seq::<bool>::empty();
    let m = Map::<u8, Seq<bool>>::empty();
    lemma_insert_codes(arr, lo, 0, e, m);
    assert(m.dom().union(leaves(arr, 0)) =~= leaves(arr, 0));
    assert forall|s: u8| #[trigger] tree_codes(arr).dom().contains(s) implies tree_codes(arr)[s].len() >= 1
        && tree_codes(arr)[s].len() <= 255 && reaches(arr, 0, tree_codes(arr)[s], s) by {
        let w = tree_codes(arr)[s];
        assert(w.subrange(0, w.len() as int) =~= w);
    }
}

/// The node that bit `bit` leads to from node `n`, `None` on a finishing side.
pub open spec fn step_child(n: Node, bit: bool) -> Option<int> {
    match n {
        Node::Continuation(a, b) => if bit {
            Some(b as int)
        } else {
            Some(a as int)
        },
        Node::LeftFinish(_, b) => if bit {
            Some(b as int)
        } else {
            None
        },
        Node::RightFinish(a, _) => if bit {
            None
        } else {
            Some(a as int)
        },
        Node::BothFinish(_, _) => None,
    }
}

/// The symbol on the side of node `n` that bit `bit` selects.
pub open spec fn side_symbol(n: Node, bit: bool) -> u8 {
    match n {
        Node::Continuation(a, b) => if bit {
            b
        } else {
            a
        },
        Node::LeftFinish(a, b) => if bit {
            b
        } else {
            a
        },
        Node::RightFinish(a, b) => if bit {
            b
        } else {
            a
        },
        Node::BothFinish(a, b) => if bit {
            b
        } else {
            a
        },
    }
}

/// The walk of `get`: from node `k`, read the bit at `pos` and either stop
/// at the symbol of a finishing side or go on to the next bit and node;
/// `None` when the bits run out first.
pub open spec fn walk(arr: Seq<Node>, bits: Seq<bool>, pos: int, k: int) -> Option<(u8, int)>
    decreases bits.len() - pos,
{
    if pos < 0 || pos >= bits.len() || k < 0 || k >= arr.len() {
        None
    } else {
        match step_child(arr[k], bits[pos]) {
            Some(c) => if pos + 1 >= bits.len() {
                None
            } else {
                walk(arr, bits, pos + 1, c)
            },
            None => Some((side_symbol(arr[k], bits[pos]), pos)),
        }
    }
}

/// Walking along a path that leads to `s` finds `s` at the path's last bit.
proof fn lemma_walk_reaches(arr: Seq<Node>, k: int, q: Seq<bool>, s: u8, bits: Seq<bool>, pos: int)
    requires
        reaches(arr, k, q, s),
        0 <= pos,
        pos + q.len() <= bits.len(),
        bits.subrange(pos, pos + q.len()) == q,
    ensures
        walk(arr, bits, pos, k) == Some((s, pos + q.len() - 1)),
    decreases q.len(),
{
    assert(bits[pos] == q[0]);
    let rest = q.drop_first();
    let n = arr[k];
    if rest.len() == 0 {
        assert forall|c: int| !#[trigger] reaches(arr, c, rest, s) by {}
        match n {
            Node::Continuation(a, b) => {
                if !q[0] { assert(!reaches(arr, a as int, rest, s)); } else { assert(!reaches(arr, b as int, rest, s)); }
                assert(false);
            },
            Node::LeftFinish(a, b) => {
                if q[0] { assert(!reaches(arr, b as int, rest, s)); assert(false); }
            },
            Node::RightFinish(a, b) => {
                if !q[0] { assert(!reaches(arr, a as int, rest, s)); assert(false); }
            },
            Node::BothFinish(_, _) => {},
        }
        assert(step_child(n, q[0]) is None);
        assert(side_symbol(n, q[0]) == s);
    } else {
        assert(bits.subrange(pos + 1, pos + 1 + rest.len()) =~= rest);
        match arr[k] {
            Node::Continuation(a, b) => {
                if !q[0] {
                    lemma_walk_reaches(arr, a as int, rest, s, bits, pos + 1);
                } else {
                    lemma_walk_reaches(arr, b as int, rest, s, bits, pos + 1);
                }
            },
            Node::LeftFinish(_, b) => {
                lemma_walk_reaches(arr, b as int, rest, s, bits, pos + 1);
            },
            Node::RightFinish(a, _) => {
                lemma_walk_reaches(arr, a as int, rest, s, bits, pos + 1);
            },
            Node::BothFinish(_, _) => {},
        }
        assert(step_child(n, q[0]) is Some);
    }
}

/// Walking along bits that end inside a path that leads to a symbol finds
/// nothing.
proof fn lemma_walk_runs_out(arr: Seq<Node>, k: int, q: Seq<bool>, s: u8, bits: Seq<bool>, pos: int)
    requires
        reaches(arr, k, q, s),
        0 <= pos < bits.len() < pos + q.len(),
        bits.subrange(pos, bits.len() as int) == q.take(bits.len() - pos),
    ensures
        walk(arr, bits, pos, k) is None,
    decreases q.len(),
{
    assert(bits[pos] == bits.subrange(pos, bits.len() as int)[0]);
    let rest = q.drop_first();
    let n = arr[k];
    assert(rest.len() >= 1);
    match n {
        Node::Continuation(a, b) => {},
        Node::LeftFinish(a, b) => {
            assert(q[0]);
        },
        Node::RightFinish(a, b) => {
            assert(!q[0]);
        },
        Node::BothFinish(_, _) => {
            assert(false);
        },
    }
    let c = step_child(n, q[0])->0;
    if pos + 1 < bits.len() {
        assert(bits.subrange(pos + 1, bits.len() as int) =~= rest.take(bits.len() - pos - 1)) by {
            assert forall|i: int| 0 <= i < bits.len() - pos - 1 implies #[trigger] bits.subrange(
                pos + 1,
                bits.len() as int,
            )[i] == rest.take(bits.len() - pos - 1)[i] by {
                assert(bits.subrange(pos, bits.len() as int)[i + 1] == q.take(bits.len() - pos)[i + 1]);
                assert(bits.subrange(pos, bits.len() as int)[i + 1] == bits[pos + 1 + i]);
                assert(q.take(bits.len() - pos)[i + 1] == q[i + 1]);
                assert(rest[i] == q[i + 1]);
            }
        }
        lemma_walk_runs_out(arr, c, rest, s, bits, pos + 1);
    }
}

/// What `get` reads with the tree for `freqs` at `start`: where the code
/// word of symbol `s` stands there, the symbol, at the word's last bit; where
/// the bits end inside that code word, nothing.
pub proof fn lemma_get_codes(freqs: Seq<u32>, bits: Seq<bool>, start: int, s: u8)
    requires
        freqs.len() == 256,
        tree_codes(spec_slovar(freqs)).dom().contains(s),
        0 <= start,
    ensures
        ({
            let w = tree_codes(spec_slovar(freqs))[s];
            &&& start + w.len() <= bits.len() && bits.subrange(start, start + w.len()) == w ==> walk(
                spec_slovar(freqs),
                bits,
                start,
                0,
            ) == Some((s, start + w.len() - 1))
            &&& start < bits.len() < start + w.len() && bits.subrange(start, bits.len() as int) == w.take(
                bits.len() - start,
            ) ==> walk(spec_slovar(freqs), bits, start, 0) is None
        }),
{
    let t = spec_slovar(freqs);
    lemma_slovar_tree(freqs);
    lemma_tree_codes(t, tree_lo(freqs));
    let w = tree_codes(t)[s];
    if start + w.len() <= bits.len() && bits.subrange(start, start + w.len()) == w {
        lemma_walk_reaches(t, 0, w, s, bits, start);
    }
    if start < bits.len() < start + w.len() && bits.subrange(start, bits.len() as int) == w.take(bits.len() - start) {
        lemma_walk_runs_out(t, 0, w, s, bits, start);
    }
}

/// Reads one symbol from `bits` at `start` by walking the tree from its root:
/// the symbol and the position of its last bit, `None` when the bits run out.
fn get(bits: &BitVec, start: usize, tree: &[Node; 256]) -> (r: Option<(u8, usize)>)
    requires
        start < bits_of(*bits).len(),
    ensures
        match r {
            Some((sym, end)) => walk(tree@, bits_of(*bits), start as int, 0) == Some((sym, end as int)),
            None => walk(tree@, bits_of(*bits), start as int, 0) is None,
        },
{
    let ghost bs = bits_of(*bits);
    let ghost target = walk(tree@, bs, start as int, 0);
    let mut current_bit = start;
    let mut current: usize = 0;
    let len = bv_len(bits);
    loop
        invariant
            bs == bits_of(*bits),
            len == bs.len(),
            current_bit < len,
            current < 256,
            target == walk(tree@, bs, start as int, 0),
            walk(tree@, bs, current_bit as int, current as int) == target,
        decreases len - current_bit,
    {
        let bit = bv_get(bits, current_bit).unwrap();
        match tree[current] {
            Node::Continuation(a, b) => {
                current = if bit {
                    b as usize
                } else {
                    a as usize
                };
            },
            Node::LeftFinish(a, b) => {
                if !bit {
                    return Some((a, current_bit));
                }
                current = b as usize;
            },
            Node::RightFinish(a, b) => {
                if bit {
                    return Some((b, current_bit));
                }
                current = a as usize;
            },
            Node::BothFinish(a, b) => {
                if bit {
                    return Some((b, current_bit));
                } else {
                    return Some((a, current_bit));
                }
            },
        }
        current_bit += 1;
        if current_bit >= len {
            return None;
        }
    }
}

/// A walk that finds a symbol stops at a bit between its start and the end.
pub proof fn lemma_walk_bounds(arr: Seq<Node>, bits: Seq<bool>, pos: int, k: int)
    ensures
        walk(arr, bits, pos, k) matches Some((_, e)) ==> pos <= e < bits.len(),
    decreases bits.len() - pos,
{
    if 0 <= pos < bits.len() && 0 <= k < arr.len() {
        if let Some(c) = step_child(arr[k], bits[pos]) {
            if pos + 1 < bits.len() {
                lemma_walk_bounds(arr, bits, pos + 1, c);
            }
        }
    }
}

// ---------------------------------------------------------------------------
// Coding and decoding
// ---------------------------------------------------------------------------

/// The code bits of `input` in the tree built from its counts.
pub open spec fn encoded_bits(input: Seq<u8>) -> Seq<bool> {
    code_bits(tree_codes(spec_slovar(freqs_of(input))), input)
}

/// What `encode` returns: the code bits packed into bytes, the 256 counts,
/// and the number of bits in the last data byte (0 for a full one).
pub open spec fn spec_encode(input: Seq<u8>) -> Seq<u8> {
    frame(encoded_bits(input), freqs_of(input))
}

/// Every symbol of `s` has a code word in `codes` that leads from the root
/// of `arr` to it.
pub open spec fn all_coded(arr: Seq<Node>, codes: Map<u8, Seq<bool>>, s: Seq<u8>) -> bool {
    forall|k: int|
        #![trigger s[k]]
        0 <= k < s.len() ==> {
            let w = codes[s[k]];
            &&& codes.dom().contains(s[k])
            &&& 1 <= w.len() <= 255
            &&& reaches(arr, 0, w, s[k])
        }
}

/// The tree built from the counts of `input` has a code word for each of
/// its symbols.
proof fn lemma_input_coded(input: Seq<u8>)
    requires
        input.len() <= u32::MAX,
    ensures
        all_coded(spec_slovar(freqs_of(input)), tree_codes(spec_slovar(freqs_of(input))), input),
{
    let f = freqs_of(input);
    let arr = spec_slovar(f);
    lemma_slovar_tree(f);
    lemma_tree_codes(arr, tree_lo(f));
    assert forall|k: int| 0 <= k < input.len() implies {
        let w = tree_codes(arr)[#[trigger] input[k]];
        &&& tree_codes(arr).dom().contains(input[k])
        &&& 1 <= w.len() <= 255
        &&& reaches(arr, 0, w, input[k])
    } by {
        lemma_occurs(input, k);
        let s = input[k];
        lemma_occurrences_le(input, s);
        assert(f[s as int] > 0);
        assert(leaves(arr, 0).contains(s));
    }
}

/// Codes `input` with the Huffman code built from its symbol counts.
/// Counting a symbol that occurs more than `u32::MAX` times overflows, so
/// the input is at most `u32::MAX` bytes long.
pub fn encode(input: &[u8]) -> (r: Vec<u8>)
    requires
        input@.len() <= u32::MAX,
        input@.len() * 256 <= usize::MAX,
    ensures
        r@ == spec_encode(input@),
{
    broadcast use vstd::std_specs::hash::group_hash_axioms;

    let freqs = count_freqs(input);
    let ghost arr = spec_slovar(freqs@);
    let ghost codes = tree_codes(arr);
    proof {
        lemma_freqs_total(input@);
        lemma_input_coded(input@);
    }
    let map = slovar_encode(&freqs);
    let mut bits = bv_new();
    assert(code_bits(codes, input@.take(0)) =~= Seq::<bool>::empty());
    let mut i: usize = 0;
    while i < input.len()
        invariant
            i <= input@.len(),
            input@.len() * 256 <= usize::MAX,
            code_view(map@) == codes,
            all_coded(arr, codes, input@),
            bits_of(bits) == code_bits(codes, input@.take(i as int)),
            bits_of(bits).len() <= 255 * i,
        decreases input@.len() - i,
    {
        let ghost before = bits_of(bits);
        let sym = input[i];
        assert(codes.dom().contains(input@[i as int]));
        let code = map.get(&sym).unwrap();
        assert(bits_of(*code) == codes[sym]);
        let n = bv_len(code);
        let mut j: usize = 0;
        while j < n
            invariant
                n == bits_of(*code).len(),
                n <= 255,
                j <= n,
                before.len() <= 255 * i,
                i < input@.len(),
                input@.len() * 256 <= usize::MAX,
                bits_of(bits) == before + bits_of(*code).take(j as int),
            decreases n - j,
        {
            let bit = bv_get(code, j).unwrap();
            assert(bits_of(*code).take(j as int + 1) =~= bits_of(*code).take(j as int).push(bit));
            bv_push(&mut bits, bit);
            j += 1;
        }
        proof {
            assert(bits_of(*code).take(n as int) =~= bits_of(*code));
            lemma_code_bits_push(codes, input@.take(i as int), sym);
            assert(input@.take(i as int + 1) =~= input@.take(i as int).push(sym));
        }
        i += 1;
    }
    assert(input@.take(input@.len() as int) =~= input@);
    let mut out = bv_to_bytes(&bits);
    push_table(&mut out, &freqs);
    let nbits = bv_len(&bits);
    out.push((nbits % 8) as u8);
    out
}

/// The symbols read from `bits` at `start` on, one walk of the tree after
/// another; `None` when the bits end inside a code word.
pub open spec fn decode_from(arr: Seq<Node>, bits: Seq<bool>, start: int) -> Option<Seq<u8>>
    decreases bits.len() - start,
{
    if start < 0 || start >= bits.len() {
        Some(Seq::<u8>::empty())
    } else {
        match walk(arr, bits, start, 0) {
            None => None,
            Some((b, end)) => {
                proof {
                    lemma_walk_bounds(arr, bits, start, 0);
                }
                match decode_from(arr, bits, end + 1) {
                    Some(rest) => Some(seq![b] + rest),
                    None => None,
                }
            },
        }
    }
}

/// What `decode` returns: `None` for fewer than 1025 bytes, else the
/// symbols read from the data bits with the tree built from the counts.
pub open spec fn spec_decode(input: Seq<u8>) -> Option<Seq<u8>> {
    if input.len() < 1025 {
        None
    } else {
        decode_from(spec_slovar(read_freqs(input)), data_bits(input, 1025), 0)
    }
}

/// The inputs that `decode` works on: too short to hold the counts, or
/// with a final byte of at most 8 (it counts the bits to drop as `8 - last`)
/// and counts whose tree can be built in `u32` (and data bits that fit in a
/// `usize`).
pub open spec fn decode_ok(input: Seq<u8>) -> bool {
    input.len() < 1025 || {
        &&& input[input.len() - 1] <= 8
        &&& tree_fits(read_freqs(input))
        &&& (input.len() - 1025) * 8 <= usize::MAX
    }
}

/// Whether `decode` accepts `input` (see `decode_ok`).
pub fn decodable(input: &[u8]) -> (r: bool)
    ensures
        r == decode_ok(input@),
{
    let n = input.len();
    if n < 1025 {
        return true;
    }
    if input[n - 1] > 8 || n - 1025 > usize::MAX / 8 {
        return false;
    }
    let freqs = read_table(input);
    let mut nonzero: u32 = 0;
    let mut total: u64 = 0;
    let mut i: usize = 0;
    while i < 256
        invariant
            i <= 256,
            freqs@.len() == 256,
            nonzero == count_nonzero(freqs@, i as int),
            nonzero <= i,
            total == freq_total(freqs@, i as int),
            total <= i * 0xFFFF_FFFFu64,
        decreases 256 - i,
    {
        if freqs[i] > 0 {
            nonzero += 1;
        }
        total += freqs[i] as u64;
        i += 1;
    }
    nonzero <= 1 || total <= u32::MAX as u64
}

/// Decodes what `encode` wrote.  `None` when the input is shorter than the
/// counts, or the data bits end inside a code word.  Outside `decode_ok` a
/// step leaves its integer type (subtracting past zero, or adding counts past
/// `u32::MAX`), so the input must lie inside it.
pub fn decode(input: &[u8]) -> (r: Option<Vec<u8>>)
    requires
        decode_ok(input@),
    ensures
        match r {
            Some(v) => spec_decode(input@) == Some(v@),
            None => spec_decode(input@) is None,
        },
{
    if input.len() < 256 * 4 + 1 {
        return None;
    }
    let bits = read_data_bits(input, 1025);
    let freqs = read_table(input);
    let tree = slovar(&freqs);
    let ghost arr = spec_slovar(read_freqs(input@));
    let ghost db = bits_of(bits);
    let len = bv_len(&bits);
    let mut start: usize = 0;
    let mut out: Vec<u8> = Vec::new();
    proof {
        if let Some(rest) = decode_from(arr, db, 0) {
            assert(out@ + rest =~= rest);
        }
    }
    while start < len
        invariant
            db == bits_of(bits),
            len == db.len(),
            start <= len,
            tree@ == arr,
            match decode_from(arr, db, start as int) {
                Some(rest) => spec_decode(input@) == Some(out@ + rest),
                None => spec_decode(input@) is None,
            },
        decreases len - start,
    {
        match get(&bits, start, &tree) {
            Some((byte, next)) => {
                proof {
                    lemma_walk_bounds(arr, db, start as int, 0);
                    if let Some(rest) = decode_from(arr, db, next + 1) {
                        assert(out@ + (seq![byte] + rest) =~= out@.push(byte) + rest);
                    }
                }
                out.push(byte);
                start = next + 1;
            },
            None => {
                return None;
            },
        }
    }
    assert(out@ + Seq::<u8>::empty() =~= out@);
    Some(out)
}

/// Reading a string of code words from position `pos` gives their symbols.
proof fn lemma_decode_codes(arr: Seq<Node>, codes: Map<u8, Seq<bool>>, s: Seq<u8>, bits: Seq<bool>, pos: int)
    requires
        all_coded(arr, codes, s),
        0 <= pos <= bits.len(),
        bits.subrange(pos, bits.len() as int) == code_bits(codes, s),
    ensures
        decode_from(arr, bits, pos) == Some(s),
    decreases s.len(),
{
    if s.len() == 0 {
        assert(bits.subrange(pos, bits.len() as int).len() == 0);
        assert(s =~= Seq::<u8>::empty());
    } else {
        let w = codes[s[0]];
        let t = s.drop_first();
        let rest = code_bits(codes, t);
        assert(code_bits(codes, s) == w + rest);
        assert(bits.subrange(pos, pos + w.len()) =~= w) by {
            assert forall|i: int| 0 <= i < w.len() implies bits.subrange(pos, pos + w.len())[i] == w[i] by {
                assert(bits.subrange(pos, bits.len() as int)[i] == (w + rest)[i]);
            }
        }
        lemma_walk_reaches(arr, 0, w, s[0], bits, pos);
        assert(all_coded(arr, codes, t)) by {
            assert forall|k: int| 0 <= k < t.len() implies #[trigger] t[k] == s[k + 1] by {}
        }
        assert(bits.subrange(pos + w.len(), bits.len() as int) =~= rest) by {
            assert forall|i: int| 0 <= i < rest.len() implies bits.subrange(pos + w.len(), bits.len() as int)[i]
                == rest[i] by {
                assert(bits.subrange(pos, bits.len() as int)[w.len() + i] == (w + rest)[w.len() + i]);
            }
        }
        lemma_decode_codes(arr, codes, t, bits, pos + w.len());
        assert(seq![s[0]] + t =~= s);
    }
}

/// Decoding what `encode` wrote gives the input back.
pub proof fn lemma_roundtrip(input: Seq<u8>)
    requires
        input.len() <= u32::MAX,
    ensures
        input.len() * 256 <= usize::MAX ==> decode_ok(spec_encode(input)),
        spec_decode(spec_encode(input)) == Some(input),
{
    let f = freqs_of(input);
    let arr = spec_slovar(f);
    let codes = tree_codes(arr);
    let b = encoded_bits(input);
    lemma_input_coded(input);
    lemma_freqs_total(input);
    lemma_code_bits_len(codes, input);
    lemma_frame(b, f);
    assert(b.subrange(0, b.len() as int) =~= b);
    lemma_decode_codes(arr, codes, input, b, 0);
}

} // verus!
