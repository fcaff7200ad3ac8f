//! Verified models of three classic operating-system mechanisms: the saved
//! register state of a stackful coroutine, a single-level page table and an
//! SV39 three-level page table.

pub mod multi_level_pt;
pub mod page_table_walk;
pub mod stack_coroutine;
