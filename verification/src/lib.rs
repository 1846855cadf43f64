//! Binary message protocol: framing, a streaming state-machine parser, and the
//! parts of the traffic generator and of the server that decide rather than do I/O.
//!
//! - `protocol`: messages, their checksum, their builder and their wire format.
//! - `parse`: parse results, the `Parser` trait, and the byte-level model of the stream parser.
//! - `state_machine`: the stream parser, verified against that model.
//! - `laws`: properties of the protocol and the parser as a whole.
//! - `generator`: random messages, injected-error frames and pacing for the traffic generator.
//! - `stats`: the per-client counters of the server.

pub mod generator;
pub mod laws;
pub mod parse;
pub mod protocol;
pub mod state_machine;
pub mod stats;

pub use parse::{ParseError, ParseResult, Parser};
pub use protocol::{compute_checksum, Message, MessageBuilder, MessageBuilderError, ESCAPE, START_SEQUENCE};
pub use state_machine::StateMachineParser;
