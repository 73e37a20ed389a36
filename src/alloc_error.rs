//! Capacity errors and the guards that raise them.
use vstd::prelude::*;

verus! {

/// Details of the allocation that caused a `TryReserveError`.
#[derive(Clone, Copy, PartialEq, Eq, Structural, Debug)]
pub enum TryReserveErrorKind {
    /// The computed capacity exceeds the collection's maximum (`isize::MAX` bytes), or an
    /// index does not fit the bucket table.
    CapacityOverflow,
}

/// The error type for reservations and index arithmetic.
#[derive(Clone, Copy, PartialEq, Eq, Structural, Debug)]
pub struct TryReserveError {
    pub kind: TryReserveErrorKind,
}

/// Whether an allocation of `alloc_size` bytes is refused on this platform: only where
/// `usize` is narrower than 64 bits can a size pass the layout check and still exceed
/// `isize::MAX`.
pub open spec fn guard_refuses(alloc_size: usize) -> bool {
    usize::BITS < 64 && alloc_size > isize::MAX
}

/// Refuse allocations larger than `isize::MAX` bytes on targets narrower than 64 bits.
pub fn alloc_guard(alloc_size: usize) -> (r: Result<(), TryReserveError>)
    ensures
        r is Err <==> guard_refuses(alloc_size),
        r is Err ==> r->Err_0.kind == TryReserveErrorKind::CapacityOverflow,
{
    if usize::BITS < 64 && alloc_size > isize::MAX as usize {
        Err(TryReserveError { kind: TryReserveErrorKind::CapacityOverflow })
    } else {
        Ok(())
    }
}

} // verus!
