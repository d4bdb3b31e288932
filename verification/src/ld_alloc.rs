use vstd::prelude::*;
use vstd::layout::valid_layout;
use vstd::arithmetic::power2::is_pow2;
use crate::allocator::{Alloc, BlockView, splice, live_block, fresh_block, moved_block, disjoint_blocks};
use crate::words::{
    WORD,
    word_at,
    word_bytes,
    set_word,
    lemma_word_after_store,
    lemma_splice_inside,
    lemma_splice_outside,
    read_word,
    write_word,
};

verus! {

broadcast use vstd::map::group_map_axioms;

/// Bytes that follow the user's bytes in every block: the canary word, then
/// the address of the block's record.
pub const TRAILER: usize = 16;

/// Bytes of a record: the previous and the next record, the block, its size.
pub const RECORD_SIZE: usize = 32;

/// Alignment of a record.
pub const RECORD_ALIGN: usize = 8;

/// Offsets of the words of a record.
pub const REC_PREV: usize = 0;

pub const REC_NEXT: usize = 8;

pub const REC_PTR: usize = 16;

pub const REC_SIZE: usize = 24;

/// The record of one block handed out: `addr` is where the record lives,
/// `ptr` and `size` the block it describes.
pub struct LDAllocRecord {
    pub addr: usize,
    pub ptr: usize,
    pub size: usize,
}

/// The canary of a block at `ptr` whose record lives at `addr`.
pub open spec fn canary(ptr: usize, addr: usize) -> usize {
    ptr ^ addr
}

/// The address of the record before record `i`, or 0 for the first.
pub open spec fn link_before(recs: Seq<LDAllocRecord>, i: int) -> usize {
    if i == 0 {
        0
    } else {
        recs[i - 1].addr
    }
}

/// The address of the record after record `i`, or 0 for the last.
pub open spec fn link_after(recs: Seq<LDAllocRecord>, i: int) -> usize {
    if i + 1 >= recs.len() {
        0
    } else {
        recs[i + 1].addr
    }
}

/// The address of the first record, or 0 when there is none.
pub open spec fn link_head(recs: Seq<LDAllocRecord>) -> usize {
    if recs.len() == 0 {
        0
    } else {
        recs[0].addr
    }
}

/// The block's trailer holds its canary and the address of its record.
pub open spec fn trailer_ok(bytes: Seq<u8>, r: LDAllocRecord) -> bool {
    &&& bytes.len() == r.size + TRAILER
    &&& word_at(bytes, r.size as int) == canary(r.ptr, r.addr) as u64
    &&& word_at(bytes, r.size + WORD) == r.addr as u64
}

/// The bytes of record `i` hold its links, its block and its size.
pub open spec fn record_block_ok(bytes: Seq<u8>, recs: Seq<LDAllocRecord>, i: int) -> bool {
    &&& bytes.len() == RECORD_SIZE
    &&& word_at(bytes, REC_PREV as int) == link_before(recs, i) as u64
    &&& word_at(bytes, REC_NEXT as int) == link_after(recs, i) as u64
    &&& word_at(bytes, REC_PTR as int) == recs[i].ptr as u64
    &&& word_at(bytes, REC_SIZE as int) == recs[i].size as u64
}

/// Record `i` and its block are live in `h` and hold what they should.
pub open spec fn record_ok(h: Map<usize, BlockView>, recs: Seq<LDAllocRecord>, i: int) -> bool {
    let r = recs[i];
    &&& r.addr != 0
    &&& r.ptr != 0
    &&& r.size + TRAILER <= usize::MAX
    &&& h.contains_key(r.addr)
    &&& h[r.addr].align == RECORD_ALIGN
    &&& record_block_ok(h[r.addr].bytes, recs, i)
    &&& h.contains_key(r.ptr)
    &&& trailer_ok(h[r.ptr].bytes, r)
}

/// No two records, and no record and block, share an address.
pub open spec fn records_distinct(recs: Seq<LDAllocRecord>) -> bool {
    &&& forall|i: int, j: int|
        #![trigger recs[i], recs[j]]
        0 <= i < recs.len() && 0 <= j < recs.len() && i != j ==> recs[i].addr != recs[j].addr
            && recs[i].ptr != recs[j].ptr
    &&& forall|i: int, j: int|
        #![trigger recs[i], recs[j]]
        0 <= i < recs.len() && 0 <= j < recs.len() ==> recs[i].addr != recs[j].ptr
}

/// What `records_distinct` says of two given records.
pub proof fn lemma_distinct(recs: Seq<LDAllocRecord>, a: int, b: int)
    requires
        records_distinct(recs),
        0 <= a < recs.len(),
        0 <= b < recs.len(),
    ensures
        a != b ==> recs[a].addr != recs[b].addr && recs[a].ptr != recs[b].ptr,
        recs[a].addr != recs[b].ptr,
        recs[b].addr != recs[a].ptr,
{
    assert(recs[a] == recs[a] && recs[b] == recs[b]);
}

/// The bytes `b` after the four words of a record have been stored into it.
pub open spec fn stored_record(b: Seq<u8>, prev: usize, next: usize, ptr: usize, size: usize) -> Seq<
    u8,
> {
    splice(
        splice(
            splice(splice(b, REC_PREV as int, word_bytes(prev)), REC_NEXT as int, word_bytes(next)),
            REC_PTR as int,
            word_bytes(ptr),
        ),
        REC_SIZE as int,
        word_bytes(size),
    )
}

/// The four words stored into a record read back.
pub proof fn lemma_stored_record(b: Seq<u8>, prev: usize, next: usize, ptr: usize, size: usize)
    requires
        b.len() == RECORD_SIZE,
    ensures
        stored_record(b, prev, next, ptr, size).len() == RECORD_SIZE,
        word_at(stored_record(b, prev, next, ptr, size), REC_PREV as int) == prev as u64,
        word_at(stored_record(b, prev, next, ptr, size), REC_NEXT as int) == next as u64,
        word_at(stored_record(b, prev, next, ptr, size), REC_PTR as int) == ptr as u64,
        word_at(stored_record(b, prev, next, ptr, size), REC_SIZE as int) == size as u64,
{
    let b1 = splice(b, 0, word_bytes(prev));
    let b2 = splice(b1, 8, word_bytes(next));
    let b3 = splice(b2, 16, word_bytes(ptr));
    let b4 = splice(b3, 24, word_bytes(size));
    lemma_word_after_store(b, 0, prev, 0);
    lemma_word_after_store(b1, 8, next, 0);
    lemma_word_after_store(b1, 8, next, 8);
    lemma_word_after_store(b2, 16, ptr, 0);
    lemma_word_after_store(b2, 16, ptr, 8);
    lemma_word_after_store(b2, 16, ptr, 16);
    lemma_word_after_store(b3, 24, size, 0);
    lemma_word_after_store(b3, 24, size, 8);
    lemma_word_after_store(b3, 24, size, 16);
    lemma_word_after_store(b3, 24, size, 24);
}

/// Storing one word of a record reads back, and leaves its other words.
pub proof fn lemma_record_word_store(b: Seq<u8>, off: int, v: usize)
    requires
        b.len() == RECORD_SIZE,
        off == REC_PREV || off == REC_NEXT || off == REC_PTR || off == REC_SIZE,
    ensures
        splice(b, off, word_bytes(v)).len() == RECORD_SIZE,
        forall|k: int|
            k == REC_PREV || k == REC_NEXT || k == REC_PTR || k == REC_SIZE ==> #[trigger] word_at(
                splice(b, off, word_bytes(v)),
                k,
            ) == if k == off {
                v as u64
            } else {
                word_at(b, k)
            },
{
    lemma_word_after_store(b, off, v, 0);
    lemma_word_after_store(b, off, v, 8);
    lemma_word_after_store(b, off, v, 16);
    lemma_word_after_store(b, off, v, 24);
}

/// The bytes `b` of a block of `size` user bytes after its trailer has been
/// stored into it.
pub open spec fn stored_trailer(b: Seq<u8>, size: usize, ptr: usize, addr: usize) -> Seq<u8> {
    splice(splice(b, size as int, word_bytes(canary(ptr, addr))), size + WORD, word_bytes(addr))
}

/// The trailer stored into a block reads back, and the user's bytes stay.
pub proof fn lemma_stored_trailer(b: Seq<u8>, size: usize, ptr: usize, addr: usize)
    requires
        b.len() == size + TRAILER,
    ensures
        trailer_ok(stored_trailer(b, size, ptr, addr), LDAllocRecord { addr, ptr, size }),
        stored_trailer(b, size, ptr, addr).take(size as int) == b.take(size as int),
{
    let b1 = splice(b, size as int, word_bytes(canary(ptr, addr)));
    let b2 = splice(b1, size + WORD, word_bytes(addr));
    lemma_word_after_store(b, size as int, canary(ptr, addr), size as int);
    lemma_word_after_store(b1, size + WORD, addr, size as int);
    lemma_word_after_store(b1, size + WORD, addr, size + WORD);
    lemma_splice_outside(b, size as int, word_bytes(canary(ptr, addr)), 0, size as int);
    lemma_splice_outside(b1, size + WORD, word_bytes(addr), 0, size as int);
    assert(b2.take(size as int) =~= b2.subrange(0, size as int));
    assert(b.take(size as int) =~= b.subrange(0, size as int));
}

/// What handing out a block does to the memory of the allocator watched:
/// `h1` is `h0` with two fresh blocks, the block at `p` with room for `size`
/// bytes and the trailer, aligned to `align`, and its record at `rec`; of
/// the blocks `h0` had, only the record at `head` (the former first record,
/// when there was one) changes, and only in its link to the record before.
pub open spec fn gained_block(
    h0: Map<usize, BlockView>,
    h1: Map<usize, BlockView>,
    p: usize,
    size: usize,
    align: usize,
    rec: usize,
    head: usize,
) -> bool {
    &&& rec != p
    &&& !h0.contains_key(p)
    &&& !h0.contains_key(rec)
    &&& h1.dom() == h0.dom().insert(p).insert(rec)
    &&& h1[p].bytes.len() == size + TRAILER
    &&& h1[p].align == align
    &&& h1[rec].bytes.len() == RECORD_SIZE
    &&& h1[rec].align == RECORD_ALIGN
    &&& forall|q: usize| h0.contains_key(q) && q != head ==> #[trigger] h1[q] == h0[q]
    &&& head != 0 ==> h1[head].align == h0[head].align && h1[head].bytes == splice(
        h0[head].bytes,
        REC_PREV as int,
        word_bytes(rec),
    )
}

/// What taking back a block does to the memory of the allocator watched:
/// `h1` is `h0` without the block at `ptr` and its record at `rec`; of the
/// other blocks only the records beside it change, each in its link to the
/// other.
pub open spec fn lost_block(
    h0: Map<usize, BlockView>,
    h1: Map<usize, BlockView>,
    ptr: usize,
    rec: usize,
    prev: usize,
    next: usize,
) -> bool {
    &&& h1.dom() == h0.dom().remove(ptr).remove(rec)
    &&& forall|q: usize| h1.contains_key(q) && q != prev && q != next ==> #[trigger] h1[q] == h0[q]
    &&& prev != 0 ==> h1[prev].align == h0[prev].align && h1[prev].bytes == splice(
        h0[prev].bytes,
        REC_NEXT as int,
        word_bytes(next),
    )
    &&& next != 0 ==> h1[next].align == h0[next].align && h1[next].bytes == splice(
        h0[next].bytes,
        REC_PREV as int,
        word_bytes(prev),
    )
}

///
/// An allocator that watches another one: it keeps a doubly linked list of
/// records of the blocks it hands out, in memory drawn from the allocator it
/// watches, and puts after each block a canary and the address of the
/// block's record, which it checks when the block comes back.
///
pub struct LDAlloc<A: Alloc> {
    allocator: A,
    alloc_records: usize,
    records: Ghost<Seq<LDAllocRecord>>,
    owned: Ghost<Map<usize, usize>>,
}

impl<A: Alloc> LDAlloc<A> {
    /// The records, first to last.
    pub closed spec fn records(&self) -> Seq<LDAllocRecord> {
        self.records@
    }

    /// The allocator it watches.
    pub closed spec fn inner(&self) -> A {
        self.allocator
    }

    /// The blocks handed out and not given back, as (address, size), most
    /// recent first.
    pub open spec fn blocks(&self) -> Seq<(usize, usize)> {
        self.records().map_values(|r: LDAllocRecord| (r.ptr, r.size))
    }

    /// Every block handed out carries an intact canary and the address of
    /// its record.
    pub open spec fn blocks_intact(&self) -> bool {
        forall|i: int|
            0 <= i < self.records().len() ==> #[trigger] trailer_ok(
                self.inner().heap()[self.records()[i].ptr].bytes,
                self.records()[i],
            )
    }

    pub fn new(allocator: A) -> (r: LDAlloc<A>)
        requires
            allocator.wf(),
        ensures
            r.wf(),
            r.heap() == Map::<usize, BlockView>::empty(),
            r.records() == Seq::<LDAllocRecord>::empty(),
            r.inner() == allocator,
    {
        let r = LDAlloc {
            allocator,
            alloc_records: 0,
            records: Ghost(Seq::empty()),
            owned: Ghost(Map::empty()),
        };
        assert(r.heap() =~= Map::<usize, BlockView>::empty());
        r
    }

    pub fn into_ptr(&self) -> (r: &LDAlloc<A>)
        ensures
            *r == *self,
    {
        self
    }

    pub fn into_ptr_mut(&mut self) -> (r: &mut LDAlloc<A>)
        ensures
            *r == *old(self),
            *final(self) == *final(r),
    {
        self
    }
}

impl<A: Alloc> Alloc for LDAlloc<A> {
    closed spec fn wf(&self) -> bool {
        let recs = self.records@;
        let h = self.allocator.heap();
        &&& self.allocator.wf()
        &&& self.alloc_records == link_head(recs)
        &&& forall|i: int| 0 <= i < recs.len() ==> #[trigger] record_ok(h, recs, i)
        &&& records_distinct(recs)
        &&& self.owned@.dom().finite()
        &&& forall|i: int|
            0 <= i < recs.len() ==> self.owned@.contains_key(#[trigger] recs[i].ptr)
                && self.owned@[recs[i].ptr] == recs[i].size
        &&& forall|p: usize|
            #[trigger] self.owned@.contains_key(p) ==> exists|i: int|
                0 <= i < recs.len() && #[trigger] recs[i].ptr == p
    }

    closed spec fn heap(&self) -> Map<usize, BlockView> {
        Map::new(
            |p: usize| self.owned@.contains_key(p),
            |p: usize|
                BlockView {
                    align: self.allocator.heap()[p].align,
                    bytes: self.allocator.heap()[p].bytes.take(self.owned@[p] as int),
                },
        )
    }

    open spec fn admits(size: usize, alignment: usize) -> bool {
        &&& size + TRAILER <= usize::MAX
        &&& A::admits((size + TRAILER) as usize, alignment)
        &&& A::admits(RECORD_SIZE, RECORD_ALIGN)
    }

    proof fn lemma_wf(&self) {
        assert(self.heap().dom() =~= self.owned@.dom());
        if self.owned@.contains_key(0) {
            let i = choose|i: int| 0 <= i < self.records@.len() && self.records@[i].ptr == 0;
            assert(record_ok(self.allocator.heap(), self.records@, i));
        }
        self.lemma_heap_disjoint();
    }

    proof fn lemma_admits(size: usize, alignment: usize) {
        A::lemma_admits((size + TRAILER) as usize, alignment);
    }

    /// The room of the allocator it watches.
    open spec fn room(&self) -> int {
        self.inner().room()
    }

    /// A block with its trailer, and its record.
    open spec fn cost(size: usize, alignment: usize) -> int {
        A::cost((size + TRAILER) as usize, alignment) + A::cost(RECORD_SIZE, RECORD_ALIGN)
    }

    proof fn lemma_cost(size: usize, alignment: usize) {
        A::lemma_cost((size + TRAILER) as usize, alignment);
        A::lemma_cost(RECORD_SIZE, RECORD_ALIGN);
    }

    #[verifier::spinoff_prover]
    #[verifier::rlimit(40)]
    fn allocate(&mut self, size: usize, alignment: usize) -> (p: usize)
        ensures
            p == 0 ==> final(self).blocks() == old(self).blocks(),
            p != 0 ==> final(self).blocks() == seq![(p, size)] + old(self).blocks(),
            p == 0 ==> final(self).inner().heap() == old(self).inner().heap(),
            p != 0 ==> exists|rec: usize|
                {
                    &&& gained_block(
                        old(self).inner().heap(),
                        final(self).inner().heap(),
                        p,
                        size,
                        alignment,
                        rec,
                        link_head(old(self).records()),
                    )
                    &&& final(self).records() == seq![LDAllocRecord { addr: rec, ptr: p, size }]
                        + old(self).records()
                },
    {
        let ghost h0 = self.allocator.heap();
        let ghost recs0 = self.records@;
        let ghost l0 = self.heap();
        proof {
            self.allocator.lemma_wf();
            A::lemma_cost((size + TRAILER) as usize, alignment);
            A::lemma_cost(RECORD_SIZE, RECORD_ALIGN);
        }
        let total = size + TRAILER;
        let blk = self.allocator.allocate(total, alignment);
        if blk == 0 {
            assert(self.heap() =~= l0);
            return 0;
        }
        let ghost h1 = self.allocator.heap();
        let rec = self.allocator.allocate(RECORD_SIZE, RECORD_ALIGN);
        if rec == 0 {
            self.allocator.release(blk, total, alignment);
            assert(self.allocator.heap() =~= h0);
            assert(self.heap() =~= l0);
            return 0;
        }
        let ghost h2 = self.allocator.heap();
        let head = self.alloc_records;
        write_word(&mut self.allocator, rec, REC_PREV, 0);
        write_word(&mut self.allocator, rec, REC_NEXT, head);
        write_word(&mut self.allocator, rec, REC_PTR, blk);
        write_word(&mut self.allocator, rec, REC_SIZE, size);
        proof {
            lemma_stored_record(h2[rec].bytes, 0, head, blk, size);
        }
        if head != 0 {
            proof {
                assert(record_ok(h0, recs0, 0));
                lemma_record_word_store(h0[head].bytes, 0, rec);
            }
            write_word(&mut self.allocator, head, REC_PREV, rec);
        }
        self.alloc_records = rec;
        write_word(&mut self.allocator, blk, size, blk ^ rec);
        write_word(&mut self.allocator, blk, size + WORD, rec);
        let ghost h9 = self.allocator.heap();
        proof {
            lemma_stored_trailer(h1[blk].bytes, size, blk, rec);
            let new_rec = LDAllocRecord { addr: rec, ptr: blk, size };
            let recs1 = seq![new_rec] + recs0;
            assert(h9[blk].bytes == stored_trailer(h1[blk].bytes, size, blk, rec));
            assert(h9[rec].bytes == stored_record(h2[rec].bytes, 0, head, blk, size));
            assert forall|i: int| 0 <= i < recs1.len() implies #[trigger] record_ok(h9, recs1, i) by {
                if i == 0 {
                    assert(link_after(recs1, 0) == head);
                } else {
                    assert(recs1[i] == recs0[i - 1]);
                    assert(record_ok(h0, recs0, i - 1));
                    let r = recs0[i - 1];
                    assert(r.addr != rec && r.addr != blk && r.ptr != rec && r.ptr != blk);
                    if i > 1 {
                        assert(r.addr != head) by {
                            lemma_distinct(recs0, 0, i - 1);
                        }
                        assert(h9[r.addr] == h0[r.addr]);
                    }
                    assert(r.ptr != head) by {
                        lemma_distinct(recs0, 0, i - 1);
                    }
                    assert(h9[r.ptr] == h0[r.ptr]);
                }
            }
            assert forall|i: int, j: int|
                #![trigger recs1[i], recs1[j]]
                0 <= i < recs1.len() && 0 <= j < recs1.len() implies recs1[i].addr
                != recs1[j].ptr by {
                if i > 0 {
                    assert(record_ok(h0, recs0, i - 1));
                }
                if j > 0 {
                    assert(record_ok(h0, recs0, j - 1));
                }
                if i > 0 && j > 0 {
                    lemma_distinct(recs0, i - 1, j - 1);
                }
            }
            assert forall|i: int, j: int|
                #![trigger recs1[i], recs1[j]]
                0 <= i < recs1.len() && 0 <= j < recs1.len() && i != j implies recs1[i].addr
                != recs1[j].addr && recs1[i].ptr != recs1[j].ptr by {
                if i > 0 {
                    assert(record_ok(h0, recs0, i - 1));
                }
                if j > 0 {
                    assert(record_ok(h0, recs0, j - 1));
                }
                if i > 0 && j > 0 {
                    lemma_distinct(recs0, i - 1, j - 1);
                }
            }
            let owned0 = self.owned@;
            self.records = Ghost(recs1);
            self.owned = Ghost(owned0.insert(blk, size));
            assert forall|i: int| 0 <= i < recs1.len() implies self.owned@.contains_key(
                #[trigger] recs1[i].ptr,
            ) && self.owned@[recs1[i].ptr] == recs1[i].size by {
                if i > 0 {
                    assert(recs1[i] == recs0[i - 1]);
                    assert(record_ok(h0, recs0, i - 1));
                }
            }
            assert forall|q: usize| #[trigger] self.owned@.contains_key(q) implies exists|i: int|
                0 <= i < recs1.len() && #[trigger] recs1[i].ptr == q by {
                if q == blk {
                    assert(recs1[0].ptr == q);
                } else {
                    let k = choose|k: int| 0 <= k < recs0.len() && #[trigger] recs0[k].ptr == q;
                    assert(recs1[k + 1].ptr == q);
                }
            }
            assert(!l0.contains_key(blk)) by {
                if owned0.contains_key(blk) {
                    let k = choose|k: int| 0 <= k < recs0.len() && #[trigger] recs0[k].ptr == blk;
                    assert(record_ok(h0, recs0, k));
                }
            }
            assert forall|q: usize| #[trigger] owned0.contains_key(q) implies h9[q] == h0[q] by {
                let k = choose|k: int| 0 <= k < recs0.len() && #[trigger] recs0[k].ptr == q;
                assert(record_ok(h0, recs0, k));
                assert(q != head) by {
                    lemma_distinct(recs0, 0, k);
                }
            }
            assert(self.heap() =~= l0.insert(blk, self.heap()[blk]));
            assert(self.allocator.wf());
            assert(self.alloc_records == link_head(recs1));
            assert(records_distinct(recs1));
            assert(self.owned@.dom().finite());
            assert(self.records@ == recs1);
            assert(self.allocator.heap() == h9);
            assert(self.blocks() =~= seq![(blk, size)] + recs0.map_values(
                |r: LDAllocRecord| (r.ptr, r.size),
            ));
            assert(h9.dom() =~= h0.dom().insert(blk).insert(rec));
            assert forall|q: usize| h0.contains_key(q) && q != head implies #[trigger] h9[q] == h0[q] by {
            }
            assert(gained_block(h0, h9, blk, size, alignment, rec, head));
            assert(head == link_head(recs0));
            assert(self.records() == seq![LDAllocRecord { addr: rec, ptr: blk, size }] + recs0);
            assert(self.inner().heap() == h9);
            assert(old(self).inner().heap() == h0);
            assert(old(self).records() == recs0);
            assert(gained_block(
                old(self).inner().heap(),
                self.inner().heap(),
                blk,
                size,
                alignment,
                rec,
                link_head(old(self).records()),
            ));
        }
        blk
    }

    #[verifier::spinoff_prover]
    #[verifier::rlimit(40)]
    fn release(&mut self, ptr: usize, size: usize, alignment: usize)
        ensures
            exists|i: int|
                0 <= i < old(self).blocks().len() && old(self).blocks()[i] == (ptr, size) && final(self).blocks() == old(self).blocks().remove(i),
            exists|i: int|
                {
                    &&& 0 <= i < old(self).records().len()
                    &&& old(self).records()[i].ptr == ptr
                    &&& old(self).records()[i].size == size
                    &&& final(self).records() == old(self).records().remove(i)
                    &&& lost_block(
                        old(self).inner().heap(),
                        final(self).inner().heap(),
                        ptr,
                        old(self).records()[i].addr,
                        link_before(old(self).records(), i),
                        link_after(old(self).records(), i),
                    )
                },
    {
        let ghost h0 = self.allocator.heap();
        let ghost recs0 = self.records@;
        let ghost l0 = self.heap();
        let ghost owned0 = self.owned@;
        assert(owned0.contains_key(ptr));
        let ghost i = choose|i: int| 0 <= i < recs0.len() && #[trigger] recs0[i].ptr == ptr;
        proof {
            assert(record_ok(h0, recs0, i));
        }
        let total = size + TRAILER;
        let record_ptr = read_word(&self.allocator, ptr, size + WORD);
        let canary_word = read_word(&self.allocator, ptr, size);
        proof {
            assert(record_ptr == recs0[i].addr);
            assert(record_ok(h0, recs0, i));
        }
        // What the record says must match the block given back, and the
        // canary must be intact: the invariant ties each trailer to its
        // record, so these checks cannot fail.
        let recorded_ptr = read_word(&self.allocator, record_ptr, REC_PTR);
        let recorded_size = read_word(&self.allocator, record_ptr, REC_SIZE);
        if recorded_ptr != ptr || recorded_size != size || (recorded_ptr ^ record_ptr) != canary_word {
            proof {
                assert(false);
            }
            return;
        }
        let prev = read_word(&self.allocator, record_ptr, REC_PREV);
        let next = read_word(&self.allocator, record_ptr, REC_NEXT);
        proof {
            assert(prev == link_before(recs0, i));
            assert(next == link_after(recs0, i));
            if i > 0 {
                assert(record_ok(h0, recs0, i - 1));
            }
            if i + 1 < recs0.len() {
                assert(record_ok(h0, recs0, i + 1));
            }
        }
        if self.alloc_records == record_ptr {
            proof {
                if i != 0 {
                    lemma_distinct(recs0, 0, i);
                }
            }
            self.alloc_records = next;
        }
        proof {
            assert(i != 0 ==> self.alloc_records == recs0[0].addr) by {
                if i != 0 {
                    lemma_distinct(recs0, 0, i);
                }
            }
        }
        if prev != 0 {
            proof {
                assert(i > 0);
                let b = h0[prev].bytes;
                lemma_record_word_store(b, 8, next);
            }
            write_word(&mut self.allocator, prev, REC_NEXT, next);
        }
        let ghost h1 = self.allocator.heap();
        if next != 0 {
            proof {
                assert(i + 1 < recs0.len());
                assert(next != prev) by {
                    if i > 0 {
                        lemma_distinct(recs0, i - 1, i + 1);
                    }
                }
                let b = h1[next].bytes;
                lemma_record_word_store(b, 0, prev);
            }
            write_word(&mut self.allocator, next, REC_PREV, prev);
        }
        let ghost h2 = self.allocator.heap();
        proof {
            assert(ptr != prev && ptr != next) by {
                if i > 0 {
                    lemma_distinct(recs0, i - 1, i);
                }
                if i + 1 < recs0.len() {
                    lemma_distinct(recs0, i + 1, i);
                }
            }
            assert(record_ptr != prev && record_ptr != next) by {
                if i > 0 {
                    lemma_distinct(recs0, i - 1, i);
                }
                if i + 1 < recs0.len() {
                    lemma_distinct(recs0, i + 1, i);
                }
            }
            assert(h2[ptr] == h0[ptr]);
            assert(h2[record_ptr] == h0[record_ptr]);
        }
        self.allocator.release(ptr, total, alignment);
        self.allocator.release(record_ptr, RECORD_SIZE, RECORD_ALIGN);
        let ghost h4 = self.allocator.heap();
        proof {
            let recs1 = recs0.remove(i);
            assert forall|k: int| 0 <= k < recs1.len() implies #[trigger] record_ok(h4, recs1, k) by {
                let j = if k < i { k } else { k + 1 };
                assert(recs1[k] == recs0[j]);
                assert(record_ok(h0, recs0, j));
                let r = recs0[j];
                assert(r.addr != ptr && r.addr != record_ptr && r.ptr != ptr && r.ptr != record_ptr) by {
                    lemma_distinct(recs0, i, j);
                }
                assert(r.ptr != prev && r.ptr != next) by {
                    if i > 0 {
                        lemma_distinct(recs0, i - 1, j);
                    }
                    if i + 1 < recs0.len() {
                        lemma_distinct(recs0, i + 1, j);
                    }
                }
                assert(h4[r.ptr] == h0[r.ptr]);
                if j == i - 1 {
                    assert(r.addr == prev);
                    assert(r.addr != next) by {
                        if i + 1 < recs0.len() {
                            lemma_distinct(recs0, i + 1, j);
                        }
                    }
                    assert(link_after(recs1, k) == next);
                    assert(link_before(recs1, k) == link_before(recs0, j));
                } else if j == i + 1 {
                    assert(r.addr == next);
                    assert(link_before(recs1, k) == prev);
                    assert(link_after(recs1, k) == link_after(recs0, j));
                } else {
                    assert(r.addr != prev && r.addr != next) by {
                        if i > 0 {
                            lemma_distinct(recs0, i - 1, j);
                        }
                        if i + 1 < recs0.len() {
                            lemma_distinct(recs0, i + 1, j);
                        }
                    }
                    assert(h4[r.addr] == h0[r.addr]);
                    assert(link_before(recs1, k) == link_before(recs0, j));
                    assert(link_after(recs1, k) == link_after(recs0, j));
                }
            }
            assert forall|a: int, b: int|
                #![trigger recs1[a], recs1[b]]
                0 <= a < recs1.len() && 0 <= b < recs1.len() implies recs1[a].addr
                != recs1[b].ptr by {
                let ja = if a < i { a } else { a + 1 };
                let jb = if b < i { b } else { b + 1 };
                lemma_distinct(recs0, ja, jb);
            }
            assert forall|a: int, b: int|
                #![trigger recs1[a], recs1[b]]
                0 <= a < recs1.len() && 0 <= b < recs1.len() && a != b implies recs1[a].addr
                != recs1[b].addr && recs1[a].ptr != recs1[b].ptr by {
                let ja = if a < i { a } else { a + 1 };
                let jb = if b < i { b } else { b + 1 };
                lemma_distinct(recs0, ja, jb);
            }
            self.records = Ghost(recs1);
            self.owned = Ghost(owned0.remove(ptr));
            assert forall|k: int| 0 <= k < recs1.len() implies self.owned@.contains_key(
                #[trigger] recs1[k].ptr,
            ) && self.owned@[recs1[k].ptr] == recs1[k].size by {
                let j = if k < i { k } else { k + 1 };
                assert(recs1[k] == recs0[j]);
                lemma_distinct(recs0, i, j);
            }
            assert forall|q: usize| #[trigger] self.owned@.contains_key(q) implies exists|k: int|
                0 <= k < recs1.len() && #[trigger] recs1[k].ptr == q by {
                let j = choose|j: int| 0 <= j < recs0.len() && #[trigger] recs0[j].ptr == q;
                assert(j != i);
                let k = if j < i { j } else { j - 1 };
                assert(recs1[k].ptr == q);
            }
            assert(self.alloc_records == link_head(recs1));
            assert forall|q: usize| #[trigger] self.owned@.contains_key(q) implies h4[q] == h0[q] by {
                let j = choose|j: int| 0 <= j < recs0.len() && #[trigger] recs0[j].ptr == q;
                lemma_distinct(recs0, i, j);
                assert(record_ok(h0, recs0, j));
                assert(q != prev && q != next) by {
                    if i > 0 {
                        lemma_distinct(recs0, i - 1, j);
                    }
                    if i + 1 < recs0.len() {
                        lemma_distinct(recs0, i + 1, j);
                    }
                }
            }
            assert(self.heap() =~= l0.remove(ptr));
            assert(self.allocator.wf());
            assert(records_distinct(recs1));
            assert(self.owned@.dom().finite());
            assert(self.records@ == recs1);
            assert(self.blocks() =~= recs0.map_values(|r: LDAllocRecord| (r.ptr, r.size)).remove(i));
            assert(old(self).blocks()[i] == (ptr, size));
            assert(h4.dom() =~= h0.dom().remove(ptr).remove(record_ptr));
            assert(next != 0 ==> h1[next] == h0[next]);
            assert(lost_block(h0, h4, ptr, record_ptr, prev, next));
        }
    }

    fn realloc(
        &mut self,
        ptr: usize,
        old_size: usize,
        old_alignment: usize,
        new_size: usize,
        new_alignment: usize,
    ) -> (p: usize)
        ensures
            p == 0 ==> final(self).blocks() == old(self).blocks(),
            p != 0 ==> exists|i: int|
                0 <= i < old(self).blocks().len() && old(self).blocks()[i] == (ptr, old_size)
                    && final(self).blocks() == seq![(p, new_size)] + old(self).blocks().remove(i),
    {
        let ghost l0 = self.heap();
        let ghost b0 = self.blocks();
        let copy_size: usize = if new_size > old_size { old_size } else { new_size };
        let p = self.allocate(new_size, new_alignment);
        if p == 0 {
            return 0;
        }
        let ghost l1 = self.heap();
        assert(p != ptr);
        let kept = self.read_bytes(ptr, 0, copy_size);
        self.write_bytes(p, 0, kept.as_slice());
        let ghost l2 = self.heap();
        let ghost b2 = self.blocks();
        self.release(ptr, old_size, old_alignment);
        self.validate_blocks();
        proof {
            let j = choose|j: int|
                0 <= j < b2.len() && b2[j] == (ptr, old_size) && self.blocks() == b2.remove(j);
            assert(j > 0);
            assert(b0[j - 1] == (ptr, old_size));
            assert(self.blocks() =~= seq![(p, new_size)] + b0.remove(j - 1));
            assert(self.heap() =~= l0.remove(ptr).insert(p, self.heap()[p]));
            assert(l2[p].bytes.take(copy_size as int) =~= l0[ptr].bytes.take(copy_size as int));
        }
        p
    }

    fn read_bytes(&self, ptr: usize, offset: usize, len: usize) -> (r: Vec<u8>) {
        let ghost recs = self.records@;
        let ghost h = self.allocator.heap();
        proof {
            assert(self.owned@.contains_key(ptr));
            let i = choose|i: int| 0 <= i < recs.len() && #[trigger] recs[i].ptr == ptr;
            assert(record_ok(h, recs, i));
        }
        let r = self.allocator.read_bytes(ptr, offset, len);
        assert(r@ =~= self.heap()[ptr].bytes.subrange(offset as int, offset + len));
        r
    }

    fn write_bytes(&mut self, ptr: usize, offset: usize, data: &[u8])
        ensures
            final(self).blocks() == old(self).blocks(),
    {
        let ghost recs = self.records@;
        let ghost h0 = self.allocator.heap();
        let ghost l0 = self.heap();
        assert(self.owned@.contains_key(ptr));
        let ghost i = choose|i: int| 0 <= i < recs.len() && #[trigger] recs[i].ptr == ptr;
        proof {
            assert(record_ok(h0, recs, i));
        }
        self.allocator.write_bytes(ptr, offset, data);
        proof {
            let h1 = self.allocator.heap();
            let r = recs[i];
            let b0 = h0[ptr].bytes;
            lemma_splice_inside(b0, offset as int, data@);
            lemma_splice_outside(b0, offset as int, data@, r.size as int, r.size + WORD);
            lemma_splice_outside(b0, offset as int, data@, r.size + WORD, r.size + TRAILER);
            assert forall|k: int| 0 <= k < recs.len() implies #[trigger] record_ok(h1, recs, k) by {
                assert(record_ok(h0, recs, k));
                lemma_distinct(recs, i, k);
            }
            assert(self.owned@[ptr] == r.size);
            assert(splice(b0, offset as int, data@).take(r.size as int) =~= splice(
                b0.take(r.size as int),
                offset as int,
                data@,
            ));
            assert(self.heap() =~= l0.insert(
                ptr,
                BlockView { align: l0[ptr].align, bytes: splice(l0[ptr].bytes, offset as int, data@) },
            ));
        }
    }
}

impl<A: Alloc> LDAlloc<A> {
    /// Every block handed out and not given back keeps an intact canary and
    /// the address of its record after its bytes.
    pub proof fn lemma_blocks_intact(&self)
        requires
            self.wf(),
        ensures
            self.blocks_intact(),
    {
        assert forall|j: int| 0 <= j < self.records().len() implies #[trigger] trailer_ok(
            self.inner().heap()[self.records()[j].ptr].bytes,
            self.records()[j],
        ) by {
            assert(record_ok(self.allocator.heap(), self.records@, j));
        }
    }

    /// The blocks it hands out never overlap.
    proof fn lemma_heap_disjoint(&self)
        requires
            self.wf(),
        ensures
            forall|a: usize, b: usize|
                #![trigger self.heap().contains_key(a), self.heap().contains_key(b)]
                self.heap().contains_key(a) && self.heap().contains_key(b) && a < b ==> a
                    + self.heap()[a].bytes.len() <= b,
    {
        assert forall|a: usize, b: usize|
            #![trigger self.heap().contains_key(a), self.heap().contains_key(b)]
            (self.heap().contains_key(a) && self.heap().contains_key(b) && a < b) ==> a
                + self.heap()[a].bytes.len() <= b by {
            if self.heap().contains_key(a) && self.heap().contains_key(b) && a < b {
                self.lemma_blocks_apart(a, b);
            }
        }
    }

    /// Two blocks it handed out do not overlap.
    proof fn lemma_blocks_apart(&self, a: usize, b: usize)
        requires
            self.wf(),
            self.heap().contains_key(a),
            self.heap().contains_key(b),
            a < b,
        ensures
            a + self.heap()[a].bytes.len() <= b,
    {
        let h = self.allocator.heap();
        self.allocator.lemma_wf();
        assert(self.owned@.contains_key(a));
        assert(self.owned@.contains_key(b));
        let i = choose|i: int| 0 <= i < self.records@.len() && #[trigger] self.records@[i].ptr == a;
        let j = choose|j: int| 0 <= j < self.records@.len() && #[trigger] self.records@[j].ptr == b;
        assert(record_ok(h, self.records@, i));
        assert(record_ok(h, self.records@, j));
        assert(h[a] == h[a] && h[b] == h[b]);
        assert(a + h[a].bytes.len() <= b);
        assert(self.heap()[a].bytes.len() == self.owned@[a]);
    }

    /// Each block it hands out is a block of the allocator it watches, with
    /// the trailer after the bytes it hands out.
    pub proof fn lemma_blocks_in_inner(&self)
        requires
            self.wf(),
        ensures
            forall|p: usize|
                #[trigger] self.heap().contains_key(p) ==> {
                    &&& self.inner().heap().contains_key(p)
                    &&& self.inner().heap()[p].align == self.heap()[p].align
                    &&& self.inner().heap()[p].bytes.len() == self.heap()[p].bytes.len() + TRAILER
                    &&& self.heap()[p].bytes == self.inner().heap()[p].bytes.take(
                        self.heap()[p].bytes.len() as int,
                    )
                },
    {
        assert forall|p: usize| #[trigger] self.heap().contains_key(p) implies {
            &&& self.inner().heap().contains_key(p)
            &&& self.inner().heap()[p].align == self.heap()[p].align
            &&& self.inner().heap()[p].bytes.len() == self.heap()[p].bytes.len() + TRAILER
            &&& self.heap()[p].bytes == self.inner().heap()[p].bytes.take(
                self.heap()[p].bytes.len() as int,
            )
        } by {
            let i = choose|i: int| 0 <= i < self.records@.len() && #[trigger] self.records@[i].ptr == p;
            assert(record_ok(self.allocator.heap(), self.records@, i));
        }
    }

    /// Giving back the block just handed out, with no other call between,
    /// leaves the detector as it was: the same list of blocks and records,
    /// and the allocator it watches holding exactly what it held before, so
    /// both blocks that allocation took from it came back. `l1` is what
    /// `allocate` made of `l0` when it returned `p` (with its record at
    /// `rec`), and `l2` what `release` made of `l1` for record `i`.
    pub proof fn lemma_release_undoes_allocate(
        l0: &Self,
        l1: &Self,
        l2: &Self,
        p: usize,
        size: usize,
        alignment: usize,
        rec: usize,
        i: int,
    )
        requires
            l0.wf(),
            l1.wf(),
            p != 0,
            gained_block(
                l0.inner().heap(),
                l1.inner().heap(),
                p,
                size,
                alignment,
                rec,
                link_head(l0.records()),
            ),
            l1.records() == seq![LDAllocRecord { addr: rec, ptr: p, size }] + l0.records(),
            0 <= i < l1.records().len(),
            l1.records()[i].ptr == p,
            l2.records() == l1.records().remove(i),
            lost_block(
                l1.inner().heap(),
                l2.inner().heap(),
                p,
                l1.records()[i].addr,
                link_before(l1.records(), i),
                link_after(l1.records(), i),
            ),
        ensures
            l2.records() == l0.records(),
            l2.blocks() == l0.blocks(),
            l2.inner().heap() == l0.inner().heap(),
    {
        let recs0 = l0.records@;
        let recs1 = l1.records@;
        if i != 0 {
            lemma_distinct(recs1, 0, i);
        }
        assert(recs1.remove(0) =~= recs0);
        l0.allocator.lemma_wf();
        if recs0.len() > 0 {
            assert(record_ok(l0.allocator.heap(), recs0, 0));
        }
        crate::laws::lemma_ld_release_undoes_allocate(
            l0.inner().heap(),
            l1.inner().heap(),
            l2.inner().heap(),
            p,
            size,
            alignment,
            rec,
            link_head(recs0),
        );
    }

    /// The records name exactly the blocks handed out and not given back,
    /// each once, with its size.
    pub proof fn lemma_blocks_are_heap(&self)
        requires
            self.wf(),
        ensures
            forall|p: usize|
                self.heap().contains_key(p) <==> exists|i: int|
                    0 <= i < self.blocks().len() && #[trigger] self.blocks()[i].0 == p,
            forall|i: int|
                0 <= i < self.blocks().len() ==> self.heap().contains_key(self.blocks()[i].0)
                    && #[trigger] self.heap()[self.blocks()[i].0].bytes.len() == self.blocks()[i].1,
            forall|i: int, j: int|
                0 <= i < self.blocks().len() && 0 <= j < self.blocks().len() && i != j
                    ==> #[trigger] self.blocks()[i].0 != #[trigger] self.blocks()[j].0,
    {
        let recs = self.records@;
        let h = self.allocator.heap();
        assert forall|p: usize|
            self.heap().contains_key(p) <==> exists|i: int|
                0 <= i < self.blocks().len() && #[trigger] self.blocks()[i].0 == p by {
            if self.heap().contains_key(p) {
                let i = choose|i: int| 0 <= i < recs.len() && #[trigger] recs[i].ptr == p;
                assert(self.blocks()[i].0 == p);
            }
            if exists|i: int| 0 <= i < self.blocks().len() && #[trigger] self.blocks()[i].0 == p {
                let i = choose|i: int| 0 <= i < self.blocks().len() && #[trigger] self.blocks()[i].0 == p;
                assert(recs[i].ptr == p);
            }
        }
        assert forall|i: int| 0 <= i < self.blocks().len() implies self.heap().contains_key(
            self.blocks()[i].0,
        ) && #[trigger] self.heap()[self.blocks()[i].0].bytes.len() == self.blocks()[i].1 by {
            assert(record_ok(h, recs, i));
        }
        assert forall|i: int, j: int|
            0 <= i < self.blocks().len() && 0 <= j < self.blocks().len() && i != j
                implies #[trigger] self.blocks()[i].0 != #[trigger] self.blocks()[j].0 by {
            lemma_distinct(recs, i, j);
        }
    }

    /// Walks the records and checks the canary after every block.
    pub fn validate_blocks(&self)
        requires
            self.wf(),
        ensures
            self.blocks_intact(),
    {
        let ghost recs = self.records@;
        let ghost h = self.allocator.heap();
        let mut i = self.alloc_records;
        let ghost mut k: int = 0;
        while i != 0
            invariant
                self.wf(),
                recs == self.records@,
                h == self.allocator.heap(),
                0 <= k <= recs.len(),
                i == if k < recs.len() { recs[k].addr } else { 0 },
            decreases recs.len() - k,
        {
            proof {
                if k >= recs.len() {
                    assert(false);
                }
                assert(record_ok(h, recs, k));
            }
            let ptr = read_word(&self.allocator, i, REC_PTR);
            let size = read_word(&self.allocator, i, REC_SIZE);
            // The record and the block it names are tied by the invariant:
            // a damaged record or canary cannot occur.
            if ptr == 0 {
                proof {
                    assert(false);
                }
                return;
            }
            let record_ptr = read_word(&self.allocator, ptr, size + WORD);
            let canary_word = read_word(&self.allocator, ptr, size);
            if (ptr ^ record_ptr) != canary_word {
                proof {
                    assert(false);
                }
                return;
            }
            i = read_word(&self.allocator, i, REC_NEXT);
            proof {
                if k + 1 < recs.len() {
                    assert(record_ok(h, recs, k + 1));
                }
                k = k + 1;
            }
        }
        proof {
            assert forall|j: int| 0 <= j < self.records().len() implies #[trigger] trailer_ok(
                self.inner().heap()[self.records()[j].ptr].bytes,
                self.records()[j],
            ) by {
                assert(record_ok(h, recs, j));
            }
        }
    }

    /// The blocks handed out and not given back, as (address, size), most
    /// recent first, read from the records.
    pub fn allocated_blocks(&self) -> (r: Vec<(usize, usize)>)
        requires
            self.wf(),
        ensures
            r@ == self.blocks(),
    {
        let ghost recs = self.records@;
        let ghost h = self.allocator.heap();
        let mut out: Vec<(usize, usize)> = Vec::new();
        let mut i = self.alloc_records;
        let ghost mut k: int = 0;
        while i != 0
            invariant
                self.wf(),
                recs == self.records@,
                h == self.allocator.heap(),
                0 <= k <= recs.len(),
                i == if k < recs.len() { recs[k].addr } else { 0 },
                out@ =~= recs.take(k).map_values(|r: LDAllocRecord| (r.ptr, r.size)),
            decreases recs.len() - k,
        {
            proof {
                if k >= recs.len() {
                    assert(false);
                }
                assert(record_ok(h, recs, k));
            }
            let ptr = read_word(&self.allocator, i, REC_PTR);
            let size = read_word(&self.allocator, i, REC_SIZE);
            out.push((ptr, size));
            i = read_word(&self.allocator, i, REC_NEXT);
            proof {
                if k + 1 < recs.len() {
                    assert(record_ok(h, recs, k + 1));
                }
                assert(recs.take(k + 1) =~= recs.take(k).push(recs[k]));
                k = k + 1;
            }
        }
        proof {
            if k < recs.len() {
                assert(record_ok(h, recs, k));
            }
            assert(recs.take(k) =~= recs);
        }
        out
    }
}

} // verus!
