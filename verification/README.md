# Allocators and a growable array, verified with Verus

The library models memory as blocks named by their address. An allocator
(`allocator::Alloc`) hands out blocks, takes them back, moves them, and reads
and writes their bytes; its contract is stated over `heap()`, the map from
address to the block's alignment and bytes.

- `src/allocator.rs`: the `Alloc` trait and `StdAlloc`, a heap kept in safe
  Rust: each block's bytes are a `Vec<u8>`, and the allocator assigns the
  addresses itself, upwards from `HEAP_BASE`, each aligned as requested. It
  does not call the system allocator, whose interface is unsafe.
- `src/words.rs`: machine words stored in blocks (little-endian).
- `src/ld_alloc.rs`: `LDAlloc`, a leak detector over any allocator. It keeps
  a doubly linked list of records in memory drawn from the allocator it
  watches, and writes a canary and the address of the record after every
  block. Its invariant proves that the list names exactly the blocks handed
  out, and that no canary can be damaged through the allocator.
- `src/dynarray.rs`: `DynArray`, a growable array whose slots are reserved as
  one block of its allocator (the elements are kept beside it), with
  iterators.
- `src/scope_guard.rs`, `src/misc.rs`: a scope guard and the `TryClone` trait.
- `src/laws.rs`: properties that span several operations.
- `app/lib.rs`: raw-pointer helpers and printing, outside verification.
