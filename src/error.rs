use vstd::prelude::*;

verus! {

/// The fatal conditions of the kernel. None of them is recovered from: the
/// platform layer reports the error and halts.
#[derive(Clone, Copy, Debug, PartialEq, Eq, Structural)]
pub enum KernelError {
    /// The physical-page arena cannot supply the pages asked for.
    OutOfMemory,
    /// An address handed to the page-table builder is not page-aligned.
    Unaligned,
    /// Every process slot is in use.
    NoFreeSlot,
    /// A scheduler has already been published.
    AlreadyRunning,
    /// No scheduler has been published yet.
    NotRunning,
}

} // verus!
