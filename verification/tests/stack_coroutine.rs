use oscamp::stack_coroutine::{alloc_stack, stack_top_for, TaskContext, STACK_SIZE};

fn task_entry() {
    loop {
        std::hint::spin_loop();
    }
}

#[test]
fn test_alloc_stack() {
    let (buf, top) = alloc_stack();
    assert_eq!(top, buf.as_ptr() as usize + STACK_SIZE);
    assert!(top % 16 == 0);
}

#[test]
fn test_context_init() {
    let (buf, top) = alloc_stack();
    let _ = buf;
    let mut ctx = TaskContext::empty();
    let entry = task_entry as usize;
    ctx.init(top, entry);
    assert_eq!(ctx.ra, entry as u64);
    assert!(ctx.sp != 0);
}

// Further cases.

#[test]
fn context_empty_is_zero() {
    let ctx = TaskContext::empty();
    assert_eq!(ctx.sp, 0);
    assert_eq!(ctx.ra, 0);
    assert_eq!(ctx.s0, 0);
    assert_eq!(ctx.s11, 0);
    let d = TaskContext::default();
    assert_eq!(d.sp, 0);
    assert_eq!(d.s5, 0);
}

#[test]
fn context_init_rounds_sp_down() {
    let mut ctx = TaskContext::empty();
    ctx.s3 = 7;
    ctx.init(0x1000_001F, 0x4242);
    assert_eq!(ctx.sp, 0x1000_0010);
    assert_eq!(ctx.ra, 0x4242);
    assert_eq!(ctx.s3, 7);
    ctx.init(0x2000, 1);
    assert_eq!(ctx.sp, 0x2000);
    ctx.init(0xF, 1);
    assert_eq!(ctx.sp, 0);
}

#[test]
fn stack_buffer_is_zeroed() {
    let (buf, top) = alloc_stack();
    assert_eq!(buf.len(), STACK_SIZE);
    assert!(buf.iter().all(|b| *b == 0));
    let base = buf.as_ptr() as usize;
    assert!(top <= base + STACK_SIZE);
    assert!(base + STACK_SIZE - top < 16);
}

#[test]
fn stack_top_rounding() {
    assert_eq!(stack_top_for(0), 0x10000);
    assert_eq!(stack_top_for(0x1001), 0x11000);
    assert_eq!(stack_top_for(0x100F), 0x11000);
    assert_eq!(stack_top_for(0x1010), 0x11010);
}
