# lib: verified kernel core for a 32-bit ARM kernel

The memory-management, interrupt-controller and scheduling logic of a small ARMv7
kernel, written in Verus. Every executable function carries a `requires`/`ensures`
contract that Verus proves; hardware access (assembly, memory-mapped registers,
stack switches) is left to the caller, which passes register images and addresses
in and writes the results out.

Layout of `src/`:

- `heap/`: the kernel heap. `block.rs` sizes and carves free blocks,
  `free_list.rs` holds the specification of the address-ordered, coalesced free
  list, `kern_allocator.rs` the first-fit/bump allocator with its laws (alignment,
  disjointness of the ranges handed out over any run of allocations and
  deallocations, deallocation undoes allocation), `kern_heap.rs` the physical-address
  front end.
- `kalloc.rs`: the page allocator's free-list search and carving.
- `mmu/`: first- and second-level translation entries, the translation table
  (`map`, `map_sections`, `replace_section`, `map_memory`, `map_stack`, `map_device`, hole search,
  address translation, `unmap_all`), user page tables and per-processor variables.
  Mapping never disturbs a page that was already mapped, and a kernel mapping reads
  back through `virt_to_phys`.
- `interrupts/`: distributor and CPU-interface register images, the handler table,
  device handlers, interrupt stacks and the nesting depth of masked sections.
- `sched/`: processes, their kernel-stack frames, the first process, and the
  scheduler's choices (first runnable process, sleeping and waking on a channel).
- `ring_buffer.rs`, `step_range.rs`, `num.rs`, `phys.rs`, `memory_model.rs`,
  `spinlock.rs`, `error.rs`: supporting types.

`tests/` runs the library on concrete values.
