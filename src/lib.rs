//! Tracing of messages and transactions over a ledger, decoding of their
//! payloads against interface descriptions, and the text helpers used when
//! a trace is rendered.

pub mod blockchain;
pub mod jinja;
pub mod decoder;
pub mod tracer;
