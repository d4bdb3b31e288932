use vstd::prelude::*;
use crate::allocator::{
    Alloc, BlockView, StdAlloc, align_up, fresh_block, lemma_block_end_bound, moved_block, splice,
};
use crate::dynarray::{DynArray, grown_capacity};
use crate::ld_alloc::{gained_block, lost_block, RECORD_SIZE, REC_PREV};
use crate::words::{word_at, word_bytes};
use vstd::arithmetic::logarithm::{log, lemma_log0, lemma_log_is_ordered, lemma_log_nonnegative, lemma_log_s};

verus! {

broadcast use vstd::map::group_map_axioms;

/// Reading a block gives back what was last written there, and a write
/// leaves every other byte of the heap as it was.
pub proof fn lemma_read_after_write(
    h0: Map<usize, BlockView>,
    ptr: usize,
    offset: int,
    data: Seq<u8>,
    q: usize,
    a: int,
    b: int,
)
    requires
        h0.contains_key(ptr),
        0 <= offset,
        offset + data.len() <= h0[ptr].bytes.len(),
        h0.contains_key(q),
        0 <= a <= b <= h0[q].bytes.len(),
        q != ptr || b <= offset || offset + data.len() <= a,
    ensures
        ({
            let h1 = h0.insert(
                ptr,
                BlockView { align: h0[ptr].align, bytes: splice(h0[ptr].bytes, offset, data) },
            );
            &&& h1.dom() == h0.dom()
            &&& h1[ptr].bytes.len() == h0[ptr].bytes.len()
            &&& h1[ptr].bytes.subrange(offset, offset + data.len()) == data
            &&& h1[q].bytes.subrange(a, b) == h0[q].bytes.subrange(a, b)
        }),
{
    let h1 = h0.insert(
        ptr,
        BlockView { align: h0[ptr].align, bytes: splice(h0[ptr].bytes, offset, data) },
    );
    assert(h1.dom() =~= h0.dom());
    assert(h1[ptr].bytes.subrange(offset, offset + data.len()) =~= data);
    if q == ptr {
        assert(h1[q].bytes.subrange(a, b) =~= h0[q].bytes.subrange(a, b));
    }
}

/// Live blocks never overlap, in every well-formed state of any allocator:
/// of two live blocks, the lower one ends at or before the higher one starts.
pub proof fn lemma_live_blocks_disjoint<A: Alloc>(a: &A, p: usize, q: usize)
    requires
        a.wf(),
        a.heap().contains_key(p),
        a.heap().contains_key(q),
        p < q,
    ensures
        p + a.heap()[p].bytes.len() <= q,
{
    a.lemma_wf();
}

/// A block just handed out shares no byte with any block that was live
/// before the call.
pub proof fn lemma_fresh_block_apart<A: Alloc>(
    h0: Map<usize, BlockView>,
    a: &A,
    p: usize,
    size: usize,
    align: usize,
    q: usize,
)
    requires
        a.wf(),
        fresh_block(h0, a.heap(), p, size, align),
        h0.contains_key(q),
    ensures
        q + h0[q].bytes.len() <= p || p + size <= q,
{
    a.lemma_wf();
    assert(a.heap().contains_key(q) && a.heap()[q] == h0[q]);
    assert(a.heap().contains_key(p));
}

/// A block moved to `p` shares no byte with any other block that stays
/// live.
pub proof fn lemma_moved_block_apart<A: Alloc>(
    h0: Map<usize, BlockView>,
    a: &A,
    ptr: usize,
    p: usize,
    new_size: usize,
    new_align: usize,
    q: usize,
)
    requires
        a.wf(),
        moved_block(h0, a.heap(), ptr, p, new_size, new_align),
        h0.contains_key(q),
        q != ptr,
    ensures
        q + h0[q].bytes.len() <= p || p + new_size <= q,
{
    a.lemma_wf();
    assert(a.heap().contains_key(q) && a.heap()[q] == h0[q]);
    assert(a.heap().contains_key(p));
}

/// The standard allocator places each new block past every live one: once
/// a block of `n` bytes lives at `p`, the next block, which starts at the
/// first address aligned to its alignment from the next address on, starts
/// at or after `p + n`.
pub proof fn lemma_std_next_block_past(s: &StdAlloc, p: usize, align: usize)
    requires
        s.wf(),
        s.heap().contains_key(p),
        align > 0,
    ensures
        p + s.heap()[p].bytes.len() <= align_up(s.next_addr() as int, align as int),
{
    s.lemma_live_below_next(p);
    lemma_block_end_bound(s.next_addr() as int, 0, align as int);
}

/// Giving back a block just handed out leaves the heap as it was before.
pub proof fn lemma_release_undoes_allocate(
    h0: Map<usize, BlockView>,
    h1: Map<usize, BlockView>,
    p: usize,
    size: usize,
    align: usize,
)
    requires
        fresh_block(h0, h1, p, size, align),
    ensures
        h1.remove(p) == h0,
{
    assert(h1.remove(p) =~= h0);
}

/// Moving a block touches no other block.
pub proof fn lemma_realloc_keeps_others(
    h0: Map<usize, BlockView>,
    h1: Map<usize, BlockView>,
    ptr: usize,
    p: usize,
    new_size: usize,
    new_align: usize,
)
    requires
        moved_block(h0, h1, ptr, p, new_size, new_align),
    ensures
        h1.remove(p) == h0.remove(ptr),
        forall|q: usize| q != p && q != ptr ==> (h1.contains_key(q) <==> h0.contains_key(q)),
{
    assert(h1.remove(p) =~= h0.remove(ptr));
}

/// Taking off the last element undoes appending it: an array that
/// `push_back` turned into `a1`, and `pop_back` then into `a2`, holds again
/// what `a0` held.
pub proof fn lemma_pop_back_undoes_push_back<T, A: Alloc>(
    a0: DynArray<T, A>,
    a1: DynArray<T, A>,
    a2: DynArray<T, A>,
    x: T,
)
    requires
        a1@ == a0@.push(x),
        a2@ == a1@.drop_last(),
    ensures
        a2@ == a0@,
{
    assert(a0@.push(x).drop_last() =~= a0@);
}

/// Taking back a block just handed out gives the allocator watched back
/// both blocks it gave and leaves its memory as it was: the record that was
/// first gets its link to the record before it back.
pub proof fn lemma_ld_release_undoes_allocate(
    h0: Map<usize, BlockView>,
    h1: Map<usize, BlockView>,
    h2: Map<usize, BlockView>,
    p: usize,
    size: usize,
    align: usize,
    rec: usize,
    head: usize,
)
    requires
        gained_block(h0, h1, p, size, align, rec, head),
        lost_block(h1, h2, p, rec, 0, head),
        !h0.contains_key(0),
        head != 0 ==> h0.contains_key(head) && h0[head].bytes.len() == RECORD_SIZE && word_at(
            h0[head].bytes,
            REC_PREV as int,
        ) == 0,
    ensures
        h2 == h0,
{
    if head != 0 {
        let b = h0[head].bytes;
        vstd::bytes::lemma_auto_spec_u64_to_from_le_bytes();
        let w = b.subrange(0, 8);
        assert(word_bytes(0) == w) by {
            assert(vstd::bytes::spec_u64_to_le_bytes(vstd::bytes::spec_u64_from_le_bytes(w)) == w);
        }
        assert(splice(splice(b, 0, word_bytes(rec)), 0, word_bytes(0)) =~= b);
    }
    assert(h2.dom() =~= h0.dom());
    assert forall|q: usize| #[trigger] h0.contains_key(q) implies h2[q] == h0[q] by {
        if q != head {
            assert(h1[q] == h0[q]);
        }
    }
    assert(h2 =~= h0);
}

/// Growing always makes room for what is asked, and, once there is a
/// block, by at least half the capacity again.
pub proof fn lemma_growth(capacity: int, new_size: int)
    requires
        0 <= capacity < new_size,
    ensures
        grown_capacity(capacity, new_size) >= new_size,
        capacity > 0 ==> grown_capacity(capacity, new_size) >= capacity + capacity / 2,
{
}

/// How many times an array of `capacity` slots moves its block while pushes,
/// one element at a time, bring it to `n` elements: a push moves it only
/// when the array is full, and then to the capacity grown for one more.
pub open spec fn block_moves(capacity: nat, n: nat) -> nat
    decreases if n > capacity {
        n - capacity
    } else {
        0
    },
{
    if n <= capacity {
        0
    } else {
        let c = grown_capacity(capacity as int, capacity as int + 1);
        if c <= capacity {
            0
        } else {
            1 + block_moves(c as nat, n)
        }
    }
}

/// Two growths of a full array at least double its capacity.
pub proof fn lemma_two_growths_double(c: int)
    requires
        c >= 1,
    ensures
        grown_capacity(c, c + 1) >= c + 1,
        grown_capacity(grown_capacity(c, c + 1), grown_capacity(c, c + 1) + 1) >= 2 * c,
{
}

/// From `capacity` on, reaching `n` elements moves the block at most twice
/// for every doubling of the capacity, and twice more.
pub proof fn lemma_block_moves_bound(capacity: nat, n: nat)
    requires
        1 <= capacity < n,
    ensures
        block_moves(capacity, n) <= 2 * (log(2, n as int) - log(2, capacity as int)) + 2,
    decreases n - capacity,
{
    lemma_two_growths_double(capacity as int);
    lemma_log_is_ordered(2, capacity as int, n as int);
    let c1 = grown_capacity(capacity as int, capacity as int + 1);
    let c2 = grown_capacity(c1, c1 + 1);
    assert(block_moves(capacity, n) == 1 + block_moves(c1 as nat, n));
    if n as int <= c1 {
        assert(block_moves(c1 as nat, n) == 0);
    } else {
        assert(block_moves(c1 as nat, n) == 1 + block_moves(c2 as nat, n));
        if n as int <= c2 {
            assert(block_moves(c2 as nat, n) == 0);
        } else {
            lemma_block_moves_bound(c2 as nat, n);
            lemma_log_is_ordered(2, 2 * capacity as int, c2);
            lemma_log_s(2, 2 * capacity as int);
            assert((2 * capacity as int) / 2 == capacity);
        }
    }
}

/// Pushing `n` elements, one at a time, into a new array moves its block
/// at most `2 log2(n) + 3` times: growth by half again keeps the moves
/// logarithmic.
pub proof fn lemma_pushes_move_logarithmically(n: nat)
    requires
        n >= 1,
    ensures
        block_moves(0, n) <= 2 * log(2, n as int) + 3,
{
    assert(grown_capacity(0, 1) == 1);
    assert(block_moves(0, n) == 1 + block_moves(1, n));
    lemma_log_nonnegative(2, n as int);
    if n > 1 {
        lemma_block_moves_bound(1, n);
        lemma_log0(2, 1);
    } else {
        assert(block_moves(1, n) == 0);
    }
}

/// The count of pushes less the count of pops, for a run of successful
/// pushes (`true`) and pops (`false`).
pub open spec fn net_count(pushed: Seq<bool>) -> int
    decreases pushed.len(),
{
    if pushed.len() == 0 {
        0
    } else {
        net_count(pushed.drop_last()) + if pushed.last() {
            1
        } else {
            -1
        }
    }
}

/// After pushes and pops on a new array, it holds as many elements as there
/// were pushes less pops: `states[j + 1]` is what a push (each of
/// `push_back`, `push_front` and `insert` adds one element) or a pop
/// (each of `pop_back` and `pop_front` takes one off) made of `states[j]`.
pub proof fn lemma_size_counts<T, A: Alloc>(states: Seq<DynArray<T, A>>, pushed: Seq<bool>)
    requires
        states.len() == pushed.len() + 1,
        states[0]@.len() == 0,
        forall|j: int|
            0 <= j < pushed.len() ==> #[trigger] states[j + 1]@.len() == states[j]@.len() + if pushed[j] {
                1int
            } else {
                -1int
            },
    ensures
        states.last()@.len() == net_count(pushed),
    decreases pushed.len(),
{
    if pushed.len() > 0 {
        let k = pushed.len() - 1;
        assert(states[k + 1]@.len() == states[k]@.len() + if pushed[k] { 1int } else { -1int });
        lemma_size_counts(states.drop_last(), pushed.drop_last());
    }
}

/// A `MutIter` from position `i` over `n` elements, after `k` calls of
/// `next`, stands at `min(i + k, n)` (or still at `i`, if that was past the
/// end): `positions[j + 1]` is where `next` moved it from `positions[j]`,
/// so exactly that many calls handed out an element.
pub proof fn lemma_positions_after_steps(positions: Seq<int>, n: int)
    requires
        positions.len() >= 1,
        n >= 0,
        forall|j: int|
            0 <= j < positions.len() - 1 ==> #[trigger] positions[j + 1] == if positions[j] < n {
                positions[j] + 1
            } else {
                positions[j]
            },
    ensures
        positions.last() == if positions[0] <= n {
            if positions[0] + positions.len() - 1 < n {
                positions[0] + positions.len() - 1
            } else {
                n
            }
        } else {
            positions[0]
        },
    decreases positions.len(),
{
    if positions.len() > 1 {
        let k = positions.len() - 2;
        assert(positions[k + 1] == if positions[k] < n { positions[k] + 1 } else { positions[k] });
        lemma_positions_after_steps(positions.drop_last(), n);
    }
}

/// Walking a whole array with a `MutIter` from its start and writing `x`
/// through every element handed out fills the array with `x`:
/// `contents[j + 1]` is the array after the `j`-th element was written.
pub proof fn lemma_walk_writes_all<T>(contents: Seq<Seq<T>>, x: T)
    requires
        contents.len() == contents[0].len() + 1,
        forall|j: int|
            0 <= j < contents.len() - 1 ==> #[trigger] contents[j + 1] == contents[j].update(j, x),
    ensures
        contents.last() == Seq::new(contents[0].len(), |i: int| x),
{
    let n = contents[0].len() as int;
    assert forall|k: int| 0 <= k <= n implies #[trigger] contents[k] == Seq::new(k as nat, |i: int| x)
        + contents[0].skip(k) by {
        lemma_walk_prefix(contents, x, k);
    }
    assert(contents[n] =~= Seq::new(contents[0].len(), |i: int| x));
}

/// The first `k` elements are `x` after `k` writes of a walk.
pub proof fn lemma_walk_prefix<T>(contents: Seq<Seq<T>>, x: T, k: int)
    requires
        contents.len() == contents[0].len() + 1,
        forall|j: int|
            0 <= j < contents.len() - 1 ==> #[trigger] contents[j + 1] == contents[j].update(j, x),
        0 <= k <= contents[0].len(),
    ensures
        contents[k] == Seq::new(k as nat, |i: int| x) + contents[0].skip(k),
    decreases k,
{
    if k == 0 {
        assert(contents[0] =~= Seq::new(0, |i: int| x) + contents[0].skip(0));
    } else {
        lemma_walk_prefix(contents, x, k - 1);
        let j = k - 1;
        assert(contents[j + 1] == contents[j].update(j, x));
        assert(contents[k] =~= Seq::new(k as nat, |i: int| x) + contents[0].skip(k));
    }
}

} // verus!
