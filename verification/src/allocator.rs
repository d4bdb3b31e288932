use vstd::prelude::*;
use vstd::layout::valid_layout;
use vstd::arithmetic::power2::is_pow2;
use std::collections::HashMap;

verus! {

broadcast use {
    vstd::std_specs::hash::group_hash_axioms,
    vstd::map::group_map_axioms,
};

/// What an allocator knows of one live block: the alignment it was
/// requested with and the bytes it currently holds.
pub struct BlockView {
    pub align: usize,
    pub bytes: Seq<u8>,
}

/// `s` with the bytes from `offset` on replaced by `data`.
pub open spec fn splice(s: Seq<u8>, offset: int, data: Seq<u8>) -> Seq<u8> {
    s.take(offset) + data + s.skip(offset + data.len())
}

/// `h1` is `h0` with one new block at `p` of `size` bytes, aligned to `align`.
pub open spec fn fresh_block(
    h0: Map<usize, BlockView>,
    h1: Map<usize, BlockView>,
    p: usize,
    size: usize,
    align: usize,
) -> bool {
    &&& p != 0
    &&& !h0.contains_key(p)
    &&& p as int % align as int == 0
    &&& h1.contains_key(p)
    &&& h1[p].align == align
    &&& h1[p].bytes.len() == size
    &&& h1 == h0.insert(p, h1[p])
}

/// `h1` is `h0` with the block at `ptr` moved (or resized in place) to `p`,
/// now `new_size` bytes aligned to `new_align`, keeping the bytes that both
/// sizes cover.
pub open spec fn moved_block(
    h0: Map<usize, BlockView>,
    h1: Map<usize, BlockView>,
    ptr: usize,
    p: usize,
    new_size: usize,
    new_align: usize,
) -> bool {
    let keep = if new_size < h0[ptr].bytes.len() {
        new_size as int
    } else {
        h0[ptr].bytes.len() as int
    };
    &&& p != 0
    &&& (p == ptr || !h0.contains_key(p))
    &&& p as int % new_align as int == 0
    &&& h1.contains_key(p)
    &&& h1[p].align == new_align
    &&& h1[p].bytes.len() == new_size
    &&& h1[p].bytes.take(keep) == h0[ptr].bytes.take(keep)
    &&& h1 == h0.remove(ptr).insert(p, h1[p])
}

/// No two live blocks of `h` share a byte: a block ends at or before the
/// address of every block placed above it.
pub open spec fn disjoint_blocks(h: Map<usize, BlockView>) -> bool {
    forall|a: usize, b: usize|
        #![trigger h.contains_key(a), h.contains_key(b)]
        h.contains_key(a) && h.contains_key(b) && a < b ==> a + h[a].bytes.len() <= b
}

/// `h` holds a live block at `ptr` of `size` bytes requested with `align`.
pub open spec fn live_block(h: Map<usize, BlockView>, ptr: usize, size: usize, align: usize) -> bool {
    &&& h.contains_key(ptr)
    &&& h[ptr].bytes.len() == size
    &&& h[ptr].align == align
}

///
/// A polymorphic allocator, dedicated on reducing size of the generated codes.
///
/// An allocator owns the memory it hands out: blocks are named by their
/// address, and their bytes are read and written through the allocator.
///
pub trait Alloc: Sized {
    /// The allocator's internal invariant.
    spec fn wf(&self) -> bool;

    /// The live blocks, by address.
    spec fn heap(&self) -> Map<usize, BlockView>;

    /// The requests (size, alignment) that this allocator serves without
    /// failing a precondition of the memory it draws from.
    spec fn admits(size: usize, alignment: usize) -> bool;

    /// How much the allocator can still hand out: every request whose
    /// `cost` fits in it is served.
    spec fn room(&self) -> int;

    /// What serving a request of `size` bytes aligned to `alignment` takes
    /// out of the room, at most.
    spec fn cost(size: usize, alignment: usize) -> int;

    /// No request adds room.
    proof fn lemma_cost(size: usize, alignment: usize)
        ensures
            Self::cost(size, alignment) >= 0,
    ;

    /// No live block sits at the null address, and there are finitely many.
    proof fn lemma_wf(&self)
        requires
            self.wf(),
        ensures
            !self.heap().contains_key(0),
            self.heap().dom().finite(),
            disjoint_blocks(self.heap()),
    ;

    /// Every admitted request is a valid memory layout.
    proof fn lemma_admits(size: usize, alignment: usize)
        requires
            Self::admits(size, alignment),
        ensures
            valid_layout(size, alignment),
    ;

    /// Allocates a block; returns its address, or 0 when no memory is left.
    fn allocate(&mut self, size: usize, alignment: usize) -> (p: usize)
        requires
            old(self).wf(),
            Self::admits(size, alignment),
        ensures
            final(self).wf(),
            p == 0 ==> final(self).heap() == old(self).heap(),
            p != 0 ==> fresh_block(old(self).heap(), final(self).heap(), p, size, alignment),
            Self::cost(size, alignment) <= old(self).room() ==> p != 0,
            final(self).room() >= old(self).room() - Self::cost(size, alignment),
    ;

    /// Gives back a live block.
    fn release(&mut self, ptr: usize, size: usize, alignment: usize)
        requires
            old(self).wf(),
            live_block(old(self).heap(), ptr, size, alignment),
        ensures
            final(self).wf(),
            final(self).heap() == old(self).heap().remove(ptr),
            final(self).room() >= old(self).room(),
    ;

    /// Moves a live block to a block of `new_size` bytes aligned to
    /// `new_alignment`, keeping its leading bytes; returns 0, and leaves
    /// everything as it was, when no memory is left.
    fn realloc(
        &mut self,
        ptr: usize,
        old_size: usize,
        old_alignment: usize,
        new_size: usize,
        new_alignment: usize,
    ) -> (p: usize)
        requires
            old(self).wf(),
            live_block(old(self).heap(), ptr, old_size, old_alignment),
            Self::admits(new_size, new_alignment),
        ensures
            final(self).wf(),
            p == 0 ==> final(self).heap() == old(self).heap(),
            p != 0 ==> moved_block(
                old(self).heap(),
                final(self).heap(),
                ptr,
                p,
                new_size,
                new_alignment,
            ),
            Self::cost(new_size, new_alignment) <= old(self).room() ==> p != 0,
            final(self).room() >= old(self).room() - Self::cost(new_size, new_alignment),
    ;

    /// Reads `len` bytes of a live block from `offset` on.
    fn read_bytes(&self, ptr: usize, offset: usize, len: usize) -> (r: Vec<u8>)
        requires
            self.wf(),
            self.heap().contains_key(ptr),
            offset + len <= self.heap()[ptr].bytes.len(),
        ensures
            r@ == self.heap()[ptr].bytes.subrange(offset as int, offset + len),
    ;

    /// Writes `data` into a live block from `offset` on.
    fn write_bytes(&mut self, ptr: usize, offset: usize, data: &[u8])
        requires
            old(self).wf(),
            old(self).heap().contains_key(ptr),
            offset + data@.len() <= old(self).heap()[ptr].bytes.len(),
        ensures
            final(self).wf(),
            final(self).heap() == old(self).heap().insert(
                ptr,
                BlockView {
                    align: old(self).heap()[ptr].align,
                    bytes: splice(old(self).heap()[ptr].bytes, offset as int, data@),
                },
            ),
            final(self).room() == old(self).room(),
    ;
}

/// The first address the standard allocator hands out; nothing lives below
/// it, so null never names a block.
pub const HEAP_BASE: usize = 4096;

/// `n` rounded up to a multiple of `align`.
pub open spec fn align_up(n: int, align: int) -> int {
    if n % align == 0 {
        n
    } else {
        n + (align - n % align)
    }
}

/// Where a block of `size` bytes aligned to `align` ends when it is placed
/// at the first aligned address from `next` on; it takes at least one
/// address, so that no two blocks share one.
pub open spec fn block_end(next: int, size: int, align: int) -> int {
    align_up(next, align) + if size == 0 {
        1
    } else {
        size
    }
}

/// A block placed from `next` on ends no further than `size + align` past
/// `next`.
pub proof fn lemma_block_end_bound(next: int, size: int, align: int)
    requires
        next >= 0,
        size >= 0,
        align > 0,
    ensures
        next <= align_up(next, align) <= next + align - 1,
        block_end(next, size, align) <= next + size + align,
{
    assert(0 <= next % align < align) by {
        vstd::arithmetic::div_mod::lemma_mod_bound(next, align);
    }
}

/// One block of the standard allocator: its alignment and its bytes.
pub struct StdBlock {
    align: usize,
    bytes: Vec<u8>,
}

impl StdBlock {
    pub closed spec fn view(&self) -> BlockView {
        BlockView { align: self.align, bytes: self.bytes@ }
    }
}

/// The standard allocator, kept in safe code: it holds the bytes of each
/// block itself and assigns the addresses, which are simulated: they are
/// handed out upwards from `HEAP_BASE`, each aligned as requested, and never
/// twice. It does not call the system allocator.
pub struct StdAlloc {
    blocks: HashMap<usize, StdBlock>,
    next: usize,
}

impl StdAlloc {
    pub fn new() -> (r: StdAlloc)
        ensures
            r.wf(),
            r.heap() == Map::<usize, BlockView>::empty(),
            r.next_addr() == HEAP_BASE,
    {
        let r = StdAlloc { blocks: HashMap::new(), next: HEAP_BASE };
        assert(r.heap() =~= Map::<usize, BlockView>::empty());
        r
    }

    pub fn into_ptr(&self) -> (r: &StdAlloc)
        ensures
            *r == *self,
    {
        self
    }

    pub fn into_ptr_mut(&mut self) -> (r: &mut StdAlloc)
        ensures
            *r == *old(self),
            *final(self) == *final(r),
    {
        self
    }

    /// The address from which the next block is placed.
    pub closed spec fn next_addr(&self) -> usize {
        self.next
    }

    /// Every live block ends at or before the address from which the next
    /// block is placed: addresses are handed out upwards and never reused.
    pub proof fn lemma_live_below_next(&self, p: usize)
        requires
            self.wf(),
            self.heap().contains_key(p),
        ensures
            HEAP_BASE <= p,
            p + self.heap()[p].bytes.len() <= self.next_addr(),
    {
        assert(self.blocks@.contains_key(p));
    }

    /// Places a fresh block of `size` bytes aligned to `alignment`, whose
    /// bytes start with `init` and are zero after it.
    fn place(&mut self, size: usize, alignment: usize, init: &[u8]) -> (p: usize)
        requires
            old(self).wf(),
            alignment > 0,
            init@.len() <= size,
        ensures
            final(self).wf(),
            p == 0 ==> *final(self) == *old(self),
            p != 0 ==> fresh_block(old(self).heap(), final(self).heap(), p, size, alignment),
            p != 0 ==> final(self).heap()[p].bytes.take(init@.len() as int) == init@,
            p != 0 ==> forall|j: int|
                init@.len() <= j < size ==> #[trigger] final(self).heap()[p].bytes[j] == 0,
            p != 0 <==> block_end(old(self).next as int, size as int, alignment as int)
                <= usize::MAX,
            p != 0 ==> p == align_up(old(self).next as int, alignment as int) && final(self).next
                == block_end(old(self).next as int, size as int, alignment as int),
    {
        let rem = self.next % alignment;
        let pad: usize = if rem == 0 { 0 } else { alignment - rem };
        if self.next > usize::MAX - pad {
            return 0;
        }
        let p = self.next + pad;
        let span: usize = if size == 0 { 1 } else { size };
        if p > usize::MAX - span {
            return 0;
        }
        proof {
            let q = self.next as int / alignment as int;
            vstd::arithmetic::div_mod::lemma_fundamental_div_mod(self.next as int, alignment as int);
            if rem != 0 {
                assert(p == (q + 1) * alignment) by (nonlinear_arith)
                    requires
                        self.next == alignment * q + rem,
                        p == self.next + (alignment - rem),
                ;
                vstd::arithmetic::div_mod::lemma_mod_multiples_basic(q + 1, alignment as int);
            } else {
                assert(p == q * alignment) by (nonlinear_arith)
                    requires
                        self.next == alignment * q + rem,
                        p == self.next,
                        rem == 0,
                ;
                vstd::arithmetic::div_mod::lemma_mod_multiples_basic(q, alignment as int);
            }
        }
        let mut bytes: Vec<u8> = Vec::new();
        let mut i: usize = 0;
        while i < size
            invariant
                i <= size,
                init@.len() <= size,
                bytes@.len() == i,
                forall|j: int| 0 <= j < i && j < init@.len() ==> bytes@[j] == init@[j],
                forall|j: int| init@.len() <= j < i ==> bytes@[j] == 0,
            decreases size - i,
        {
            if i < init.len() {
                bytes.push(init[i]);
            } else {
                bytes.push(0u8);
            }
            i = i + 1;
        }
        let ghost h0 = self.heap();
        self.blocks.insert(p, StdBlock { align: alignment, bytes });
        self.next = p + span;
        proof {
            assert(self.heap() =~= h0.insert(p, self.heap()[p]));
            assert(self.heap()[p].bytes.take(init@.len() as int) =~= init@);
        }
        p
    }
}

impl Alloc for StdAlloc {
    closed spec fn wf(&self) -> bool {
        &&& self.next >= HEAP_BASE
        &&& forall|a: usize| #[trigger] self.blocks@.contains_key(a) ==> HEAP_BASE <= a < self.next
        &&& forall|a: usize| #[trigger] self.blocks@.contains_key(a)
            ==> a as int % self.blocks@[a].align as int == 0
        &&& forall|a: usize| #[trigger] self.blocks@.contains_key(a)
            ==> a + self.blocks@[a].bytes@.len() <= self.next
        &&& forall|a: usize, b: usize|
            #![trigger self.blocks@[a], self.blocks@[b]]
            self.blocks@.contains_key(a) && self.blocks@.contains_key(b) && a < b ==> a
                + self.blocks@[a].bytes@.len() <= b
    }

    closed spec fn heap(&self) -> Map<usize, BlockView> {
        Map::new(|a: usize| self.blocks@.contains_key(a), |a: usize| self.blocks@[a].view())
    }

    open spec fn admits(size: usize, alignment: usize) -> bool {
        valid_layout(size, alignment)
    }

    /// The addresses not handed out yet.
    open spec fn room(&self) -> int {
        usize::MAX - self.next_addr()
    }

    open spec fn cost(size: usize, alignment: usize) -> int {
        size + alignment
    }

    proof fn lemma_wf(&self) {
        assert(self.heap().dom() =~= self.blocks@.dom());
        assert forall|a: usize, b: usize|
            #![trigger self.heap().contains_key(a), self.heap().contains_key(b)]
            self.heap().contains_key(a) && self.heap().contains_key(b) && a < b implies a
                + self.heap()[a].bytes.len() <= b by {
            assert(self.blocks@[a] == self.blocks@[a] && self.blocks@[b] == self.blocks@[b]);
        }
    }

    proof fn lemma_admits(size: usize, alignment: usize) {
    }

    proof fn lemma_cost(size: usize, alignment: usize) {
    }

    fn allocate(&mut self, size: usize, alignment: usize) -> (p: usize)
        ensures
            p != 0 ==> final(self).heap()[p].bytes == Seq::new(size as nat, |j: int| 0u8),
            p != 0 <==> block_end(old(self).next_addr() as int, size as int, alignment as int)
                <= usize::MAX,
            p != 0 ==> p == align_up(old(self).next_addr() as int, alignment as int) && final(self).next_addr() == block_end(old(self).next_addr() as int, size as int, alignment as int),
            p != 0 ==> old(self).next_addr() <= p && p + size <= final(self).next_addr(),
            final(self).next_addr() >= old(self).next_addr(),
    {
        proof {
            reveal(is_pow2);
        }
        proof {
            lemma_block_end_bound(self.next as int, size as int, alignment as int);
        }
        let empty: Vec<u8> = Vec::new();
        let p = self.place(size, alignment, empty.as_slice());
        assert(p != 0 ==> self.heap()[p].bytes =~= Seq::new(size as nat, |j: int| 0u8));
        proof {
            if p != 0 {
                self.lemma_live_below_next(p);
            }
        }
        p
    }

    fn release(&mut self, ptr: usize, size: usize, alignment: usize)
        ensures
            final(self).next_addr() == old(self).next_addr(),
    {
        let ghost h0 = self.heap();
        let _ = self.blocks.remove(&ptr);
        assert(self.heap() =~= h0.remove(ptr));
    }

    fn realloc(
        &mut self,
        ptr: usize,
        old_size: usize,
        old_alignment: usize,
        new_size: usize,
        new_alignment: usize,
    ) -> (p: usize)
        ensures
            old_alignment == new_alignment && new_size <= old_size ==> p == ptr,
            p != 0 ==> forall|j: int|
                old_size <= j < new_size ==> #[trigger] final(self).heap()[p].bytes[j] == 0,
            !(old_alignment == new_alignment && new_size <= old_size) ==> (p != 0 <==> block_end(
                old(self).next_addr() as int,
                new_size as int,
                new_alignment as int,
            ) <= usize::MAX),
            !(old_alignment == new_alignment && new_size <= old_size) && p != 0 ==> p == align_up(
                old(self).next_addr() as int,
                new_alignment as int,
            ),
            !(old_alignment == new_alignment && new_size <= old_size) && p != 0
                ==> old(self).next_addr() <= p,
            p != 0 ==> p + new_size <= final(self).next_addr(),
            final(self).next_addr() >= old(self).next_addr(),
    {
        proof {
            reveal(is_pow2);
        }
        let ghost h0 = self.heap();
        proof {
            lemma_block_end_bound(self.next as int, new_size as int, new_alignment as int);
        }
        let copy_size: usize = if new_size > old_size { old_size } else { new_size };
        if old_alignment == new_alignment && new_size <= old_size {
            // the memory stays where it is and only its tail is given back
            let blk = self.blocks.remove(&ptr);
            match blk {
                Some(b) => {
                    let mut bytes = b.bytes;
                    bytes.truncate(new_size);
                    self.blocks.insert(ptr, StdBlock { align: b.align, bytes });
                    proof {
                        assert(self.heap() =~= h0.remove(ptr).insert(ptr, self.heap()[ptr]));
                        assert(self.heap()[ptr].bytes.take(new_size as int)
                            =~= h0[ptr].bytes.take(new_size as int));
                        self.lemma_live_below_next(ptr);
                    }
                    ptr
                },
                None => {
                    proof {
                        assert(false);
                    }
                    0
                },
            }
        } else {
            let kept = self.read_bytes(ptr, 0, copy_size);
            let p = self.place(new_size, new_alignment, kept.as_slice());
            if p == 0 {
                return 0;
            }
            let ghost h1 = self.heap();
            assert(p != ptr);
            self.release(ptr, old_size, old_alignment);
            proof {
                assert(self.heap()[p] == h1[p]);
                assert(self.heap() =~= h0.remove(ptr).insert(p, self.heap()[p]));
                assert(h1[p].bytes.take(copy_size as int) =~= h0[ptr].bytes.take(copy_size as int));
                self.lemma_live_below_next(p);
            }
            p
        }
    }

    fn read_bytes(&self, ptr: usize, offset: usize, len: usize) -> (r: Vec<u8>) {
        let mut out: Vec<u8> = Vec::new();
        match self.blocks.get(&ptr) {
            Some(b) => {
                let n = b.bytes.len();
                let mut i: usize = 0;
                while i < len
                    invariant
                        i <= len,
                        n == b.bytes@.len(),
                        offset + len <= b.bytes@.len(),
                        out@ =~= b.bytes@.subrange(offset as int, offset + i),
                    decreases len - i,
                {
                    out.push(b.bytes[offset + i]);
                    i = i + 1;
                }
            },
            None => {
                proof {
                    assert(false);
                }
            },
        }
        out
    }

    fn write_bytes(&mut self, ptr: usize, offset: usize, data: &[u8])
        ensures
            final(self).next_addr() == old(self).next_addr(),
    {
        let ghost h0 = self.heap();
        let blk = self.blocks.remove(&ptr);
        match blk {
            Some(b) => {
                let mut bytes = b.bytes;
                let ghost b0 = bytes@;
                let n = bytes.len();
                let mut i: usize = 0;
                while i < data.len()
                    invariant
                        i <= data@.len(),
                        n == b0.len(),
                        offset + data@.len() <= b0.len(),
                        bytes@.len() == b0.len(),
                        forall|j: int|
                            0 <= j < b0.len() ==> #[trigger] bytes@[j] == if offset <= j < offset + i {
                                data@[j - offset]
                            } else {
                                b0[j]
                            },
                    decreases data@.len() - i,
                {
                    bytes.set(offset + i, data[i]);
                    i = i + 1;
                }
                self.blocks.insert(ptr, StdBlock { align: b.align, bytes });
                proof {
                    assert(self.blocks@[ptr].bytes@ =~= splice(b0, offset as int, data@));
                    assert(self.heap() =~= h0.insert(
                        ptr,
                        BlockView { align: h0[ptr].align, bytes: splice(h0[ptr].bytes, offset as int, data@) },
                    ));
                }
            },
            None => {
                proof {
                    assert(false);
                }
            },
        }
    }
}

} // verus!
