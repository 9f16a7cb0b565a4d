//! An event-driven state-dispatch engine: a finite set of states, a
//! transition function between them, and a growing set of consumers that
//! react to queued events, with a lighter publish/subscribe bus beside it.

pub mod engine;
pub mod event_listener;
pub mod event_machine;
pub mod guarantees;
pub mod model;
pub mod priority;
pub mod table;
