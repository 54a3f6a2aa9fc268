//! A tick-based discrete-event simulation engine.
//!
//! Events are owned values that run against a caller-supplied world in strict
//! `(due tick, id)` order; while running, an event may schedule follow-up events
//! or cancel pending ones through a narrow [`Scheduler`] handle.

mod engine;
mod event;
mod queue;
mod scheduled_wrapper;
mod scheduler;

pub use engine::{Engine, Firing, DEFAULT_MAX_EXECUTIONS_PER_TICK};
pub use event::Event;
pub use scheduled_wrapper::ScheduledEvent;
pub use scheduler::Scheduler;
