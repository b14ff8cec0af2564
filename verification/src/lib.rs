//! Multiplexing of named byte streams over one linear byte channel.
//!
//! A producer interleaves ordinary pass-through text with complete,
//! token-delimited byte spans on a single channel.  The demultiplexer scans
//! for opening tokens with bounded lookahead, hands each embedded stream to a
//! caller-supplied handler, and forwards every byte outside a span verbatim
//! to a side output.

pub mod channel;
pub mod find;
pub mod needle;
pub mod plan;
pub mod processor;
pub mod result;
pub mod streams;
pub mod text;
pub mod trim;
