//! Running deep recursion on a stack that grows.
use vstd::prelude::*;

verus! {

/// `stacker::maybe_grow` runs `callback` once, on the current stack if at least `red_zone` bytes
/// of it are left and otherwise on a new stack of at least `stack_size` bytes, and gives back what
/// `callback` gave. Trusted: that the call happens and that its result is handed back unchanged.
/// Sizes above one gibibyte are left out, because rounding a very large size up to whole pages
/// overflows, and that panics. Not covered: the system may refuse the memory for a new stack.
pub assume_specification<R, F: FnOnce() -> R>[ stacker::maybe_grow::<R, F> ](
    red_zone: usize,
    stack_size: usize,
    callback: F,
) -> (ret: R)
    requires
        stack_size <= 0x4000_0000,
        callback.requires(()),
    ensures
        callback.ensures((), ret),
;

} // verus!
