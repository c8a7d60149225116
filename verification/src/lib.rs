//! A grow-only set CRDT whose replicas track causality with vector clocks.

pub mod clock;
pub mod crdt;
pub mod gset;
pub mod tester;
pub mod chat;
