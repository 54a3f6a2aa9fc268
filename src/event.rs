//! The capability that every event offers the engine.
use crate::scheduler::Scheduler;
use vstd::prelude::*;

verus! {

/// A unit of behaviour run once, at its due tick, against a world of type `W`.
///
/// Implementations may schedule follow-up events (of the same type, which may
/// be an enum of several kinds) and cancel pending ones through `scheduler`,
/// which is bound to `current_tick`.
pub trait Event<W>: Sized {
    fn execute(&self, world: &mut W, current_tick: u64, scheduler: &mut Scheduler<Self>)
        requires
            old(scheduler).wf(),
            old(scheduler).tick() == current_tick,
        ensures
            old(scheduler).reaches(*final(scheduler)),
    ;
}

} // verus!
