use vstd::prelude::*;
use vstd::bytes::{spec_u64_from_le_bytes, spec_u64_to_le_bytes, u64_from_le_bytes, u64_to_le_bytes};
use crate::allocator::{Alloc, BlockView, splice};

verus! {

/// Bytes in a machine word as it is stored in a block: little-endian, on
/// the 64-bit targets this allocator is laid out for.
pub const WORD: usize = 8;

/// The word stored at byte `off` of `bytes`.
pub open spec fn word_at(bytes: Seq<u8>, off: int) -> u64 {
    spec_u64_from_le_bytes(bytes.subrange(off, off + WORD))
}

/// The bytes of the word `v`.
pub open spec fn word_bytes(v: usize) -> Seq<u8> {
    spec_u64_to_le_bytes(v as u64)
}

/// `h` with the word `v` stored at byte `off` of the block at `addr`.
pub open spec fn set_word(h: Map<usize, BlockView>, addr: usize, off: int, v: usize) -> Map<
    usize,
    BlockView,
> {
    h.insert(addr, BlockView { align: h[addr].align, bytes: splice(h[addr].bytes, off, word_bytes(v)) })
}

/// Splicing keeps the length and puts `d` where it was asked to.
pub proof fn lemma_splice_inside(s: Seq<u8>, off: int, d: Seq<u8>)
    requires
        0 <= off,
        off + d.len() <= s.len(),
    ensures
        splice(s, off, d).len() == s.len(),
        splice(s, off, d).subrange(off, off + d.len()) == d,
{
    assert(splice(s, off, d).subrange(off, off + d.len()) =~= d);
}

/// Splicing leaves every range outside the spliced bytes as it was.
pub proof fn lemma_splice_outside(s: Seq<u8>, off: int, d: Seq<u8>, a: int, b: int)
    requires
        0 <= off,
        off + d.len() <= s.len(),
        0 <= a <= b <= s.len(),
        b <= off || off + d.len() <= a,
    ensures
        splice(s, off, d).subrange(a, b) == s.subrange(a, b),
{
    assert(splice(s, off, d).subrange(a, b) =~= s.subrange(a, b));
}

/// The word just stored reads back; the words beside it do not change.
pub proof fn lemma_word_after_store(s: Seq<u8>, off: int, v: usize, off2: int)
    requires
        0 <= off,
        off + WORD <= s.len(),
        0 <= off2,
        off2 + WORD <= s.len(),
        off2 == off || off2 + WORD <= off || off + WORD <= off2,
    ensures
        splice(s, off, word_bytes(v)).len() == s.len(),
        word_at(splice(s, off, word_bytes(v)), off2) == if off2 == off {
            v as u64
        } else {
            word_at(s, off2)
        },
{
    vstd::bytes::lemma_auto_spec_u64_to_from_le_bytes();
    let d = word_bytes(v);
    assert(d.len() == WORD);
    lemma_splice_inside(s, off, d);
    if off2 != off {
        lemma_splice_outside(s, off, d, off2, off2 + WORD);
    }
}

/// Reads the word at byte `off` of the block at `addr`.
pub fn read_word<A: Alloc>(mem: &A, addr: usize, off: usize) -> (r: usize)
    requires
        mem.wf(),
        mem.heap().contains_key(addr),
        off + WORD <= mem.heap()[addr].bytes.len(),
    ensures
        r == word_at(mem.heap()[addr].bytes, off as int) as usize,
{
    let b = mem.read_bytes(addr, off, WORD);
    let w = u64_from_le_bytes(b.as_slice());
    w as usize
}

/// Stores the word `v` at byte `off` of the block at `addr`.
pub fn write_word<A: Alloc>(mem: &mut A, addr: usize, off: usize, v: usize)
    requires
        old(mem).wf(),
        old(mem).heap().contains_key(addr),
        off + WORD <= old(mem).heap()[addr].bytes.len(),
    ensures
        final(mem).wf(),
        final(mem).heap() == set_word(old(mem).heap(), addr, off as int, v),
        final(mem).room() == old(mem).room(),
{
    let b = u64_to_le_bytes(v as u64);
    mem.write_bytes(addr, off, b.as_slice());
}

} // verus!
