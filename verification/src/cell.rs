//! Exclusive access to the globally shared kernel table: a cell that hands
//! its value to at most one logical owner at a time. Asking again while
//! the value is out is detected and refused at once — the discipline is
//! cooperative and single-core, not a reader/writer lock.

use vstd::prelude::*;

verus! {

/// A single-owner cell: holds a value until an owner takes exclusive
/// access, and refuses a second taker until the value is given back.
pub struct UPSafeCell<T> {
    value: Option<T>,
}

impl<T> UPSafeCell<T> {
    /// Whether the value is currently handed out to an owner.
    pub closed spec fn is_held(&self) -> bool {
        self.value is None
    }

    /// The value the cell holds, when no owner has it.
    pub closed spec fn stored(&self) -> T {
        self.value->Some_0
    }

    /// A fresh cell holding `value`, not handed out to anyone.
    pub fn new(value: T) -> (r: Self)
        ensures
            !r.is_held(),
            r.stored() == value,
    {
        UPSafeCell { value: Some(value) }
    }

    /// Takes exclusive access: hands the value out if no one holds it,
    /// and fails fast — handing out nothing and changing nothing — if it
    /// is already held.
    pub fn exclusive_access(&mut self) -> (r: Option<T>)
        ensures
            old(self).is_held() ==> r is None && *final(self) == *old(self),
            !old(self).is_held() ==> r == Some(old(self).stored()) && final(self).is_held(),
    {
        self.value.take()
    }

    /// Gives the value back, ending the exclusive access.
    pub fn release(&mut self, value: T)
        requires
            old(self).is_held(),
        ensures
            !final(self).is_held(),
            final(self).stored() == value,
    {
        self.value = Some(value);
    }
}

} // verus!
