# oscamp

Verified models of three operating-system mechanisms, written in Verus.

- `src/stack_coroutine.rs`: the saved register state of a stackful
  coroutine (riscv64) and the allocation of its 16-byte aligned stack.
- `src/page_table_walk.rs`: a single-level page table with valid/read/write
  flags and address translation.
- `src/multi_level_pt.rs`: an SV39 three-level page table with 4 KiB pages
  and 2 MiB superpages, modelled as a map from physical page number to a
  table of 512 entries, together with the laws that relate mapping and
  translation.
- `app/lib.rs`: the riscv64 context switch itself, in naked assembly, over a
  `#[repr(C)]` copy of the context.
