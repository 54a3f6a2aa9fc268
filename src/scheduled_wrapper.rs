//! A pending event paired with the id that the engine gave it.
use vstd::prelude::*;

verus! {

/// An event together with its engine-assigned id. Two entries are the same
/// entry exactly when their ids are equal, whatever events they carry.
pub struct ScheduledEvent<E> {
    pub id: u64,
    pub event: E,
}

impl<E> PartialEq for ScheduledEvent<E> {
    fn eq(&self, other: &Self) -> (r: bool)
        ensures
            r == (self.id == other.id),
    {
        self.id == other.id
    }
}

impl<E> vstd::std_specs::cmp::PartialEqSpecImpl for ScheduledEvent<E> {
    open spec fn obeys_eq_spec() -> bool {
        true
    }

    open spec fn eq_spec(&self, other: &Self) -> bool {
        self.id == other.id
    }
}

impl<E> Eq for ScheduledEvent<E> {
}

} // verus!
