use vstd::prelude::*;

verus! {

/// Lowest user address handed out.
pub const USER_BASE: u64 = 0x40_0000;
/// Highest user address.
pub const USER_STACK_TOP: u64 = 0x0000_7FFF_FFFF_FFFF;
/// Size of the user stack.
pub const USER_STACK_SIZE: u64 = 0x80_0000;
/// Lowest address of the user stack.
pub const USER_STACK_BOTTOM: u64 = 0x0000_7FFF_FF7F_FFFF;
/// Size of the user address space.
pub const USER_SPACE_SIZE: u64 = 0x0000_8000_0000_0000;
/// Start of the user heap.
pub const USER_HEAP_BASE: u64 = 0x140_0000;
/// Size of a kernel stack.
pub const KERNEL_STACK_SIZE: u64 = 0x4000;

/// The layout constants agree with one another.
pub proof fn lemma_layout_consistent()
    ensures
        USER_STACK_BOTTOM == USER_STACK_TOP - USER_STACK_SIZE,
        USER_SPACE_SIZE == USER_STACK_TOP + 1,
        USER_HEAP_BASE == USER_BASE + 0x100_0000,
        USER_BASE < USER_HEAP_BASE < USER_STACK_BOTTOM < USER_STACK_TOP,
{
}

/// Whether `addr` lies in the user half.
pub fn is_user_addr(addr: u64) -> (r: bool)
    ensures
        r == (addr <= USER_STACK_TOP),
{
    addr <= USER_STACK_TOP
}

/// Whether `addr` lies above the user half (every kernel address, the
/// kernel base being above the user half, does).
pub fn is_kernel_addr(addr: u64) -> (r: bool)
    ensures
        r == (addr > USER_STACK_TOP),
{
    addr >= USER_STACK_TOP + 1
}

/// Every address is either a user or a kernel address, never both.
pub proof fn lemma_user_kernel_partition(addr: u64)
    ensures
        (addr <= USER_STACK_TOP) != (addr > USER_STACK_TOP),
{
}

} // verus!
