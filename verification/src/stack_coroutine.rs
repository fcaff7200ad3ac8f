//! Saved register state of a stackful coroutine (riscv64).
//!
//! A context switch stores the callee-saved registers `sp`, `ra` and
//! `s0`..`s11` of the running task and loads those of the next one; `ret`
//! then jumps to the loaded `ra`. A task that never ran is given a context
//! whose `ra` is its entry point and whose `sp` is the 16-byte aligned top of
//! a freshly allocated stack.

use vstd::prelude::*;

verus! {

/// Size in bytes of a coroutine stack (64 KiB).
pub const STACK_SIZE: usize = 1024 * 64;

/// Saved callee-saved registers of one task: `sp`, `ra`, then `s0`..`s11`.
#[derive(Debug, Default, Clone, Copy)]
pub struct TaskContext {
    pub sp: u64,
    pub ra: u64,
    pub s0: u64,
    pub s1: u64,
    pub s2: u64,
    pub s3: u64,
    pub s4: u64,
    pub s5: u64,
    pub s6: u64,
    pub s7: u64,
    pub s8: u64,
    pub s9: u64,
    pub s10: u64,
    pub s11: u64,
}

/// `addr` rounded down to a multiple of 16.
pub open spec fn align_down_16(addr: int) -> int {
    addr - addr % 16
}

/// Top of a stack of `STACK_SIZE` bytes whose lowest byte is at `base`: the
/// address just past its last byte, rounded down to 16 bytes.
pub open spec fn stack_top_of(base: usize) -> int {
    align_down_16(base + STACK_SIZE)
}

impl TaskContext {
    /// A context with every register zero.
    pub fn empty() -> (ctx: Self)
        ensures
            ctx == (TaskContext {
                sp: 0,
                ra: 0,
                s0: 0,
                s1: 0,
                s2: 0,
                s3: 0,
                s4: 0,
                s5: 0,
                s6: 0,
                s7: 0,
                s8: 0,
                s9: 0,
                s10: 0,
                s11: 0,
            }),
    {
        Self {
            sp: 0,
            ra: 0,
            s0: 0,
            s1: 0,
            s2: 0,
            s3: 0,
            s4: 0,
            s5: 0,
            s6: 0,
            s7: 0,
            s8: 0,
            s9: 0,
            s10: 0,
            s11: 0,
        }
    }

    /// Prepares this context so that switching to it starts `entry` on the
    /// stack whose top is `stack_top`: `ra = entry`, and `sp` is `stack_top`
    /// rounded down to 16 bytes, as the RISC-V calling convention requires at
    /// function entry. `s0`..`s11` keep their values.
    pub fn init(&mut self, stack_top: usize, entry: usize)
        ensures
            *final(self) == (TaskContext {
                sp: align_down_16(stack_top as int) as u64,
                ra: entry as u64,
                ..*old(self)
            }),
            final(self).sp % 16 == 0,
            final(self).sp <= stack_top < final(self).sp + 16,
    {
        self.ra = entry as u64;
        let top = stack_top as u64;
        assert(top & !0xfu64 == top - top % 16) by (bit_vector);
        self.sp = top & !0xf;
    }
}

/// Address of the first byte of `buffer`.
///
/// Calls `Vec::as_ptr` and reads the pointer as an integer. What address the
/// allocator chose is not stated; what is stated is what the pointer rules of
/// std guarantee of any allocated block: it does not wrap around the end of
/// the address space, so its one-past-the-end address is `addr + len`.
#[verifier::external_body]
fn buffer_address(buffer: &Vec<u8>) -> (addr: usize)
    ensures
        addr + buffer.len() <= usize::MAX,
{
    buffer.as_ptr() as usize
}

/// Stack top for a stack of `STACK_SIZE` bytes whose lowest byte is at
/// `base`: the end of the stack, rounded down to 16 bytes.
pub fn stack_top_for(base: usize) -> (top: usize)
    requires
        base + STACK_SIZE <= usize::MAX,
    ensures
        top == stack_top_of(base),
        top % 16 == 0,
        top <= base + STACK_SIZE < top + 16,
{
    let stack_top = base + STACK_SIZE;
    assert(stack_top & !0xfusize == stack_top - stack_top % 16) by (bit_vector);
    stack_top & !0xf
}

/// Allocates a zeroed stack of `STACK_SIZE` bytes and returns it with its
/// top: the address just past its last byte, rounded down to 16 bytes (the
/// stack grows down). The buffer must outlive every context that uses it.
pub fn alloc_stack() -> (r: (Vec<u8>, usize))
    ensures
        r.0@ == Seq::new(STACK_SIZE as nat, |i: int| 0u8),
        r.1 % 16 == 0,
        exists|base: usize| base + STACK_SIZE <= usize::MAX && r.1 == #[trigger] stack_top_of(base),
{
    let buffer: Vec<u8> = vec![0u8; STACK_SIZE];
    assert(buffer@ =~= Seq::new(STACK_SIZE as nat, |i: int| 0u8));
    let base = buffer_address(&buffer);
    let stack_top = stack_top_for(base);
    (buffer, stack_top)
}

} // verus!
