//! A verified codec for a DNS-style name-resolution wire protocol.
//!
//! The library turns an in-memory message (header flags, questions,
//! resource records) into its exact big-endian byte sequence and
//! reconstructs an equivalent message from received bytes, resolving
//! intra-message name-compression back-references along the way.
//!
//! Every encoder and decoder carries a contract that relates it to the
//! byte-level wire model in [`wire`], and round-trip lemmas connect the
//! two directions.

pub mod error;
pub mod header;
pub mod header_bag;
pub mod message;
pub mod qclass;
pub mod qname;
pub mod qtype;
pub mod question;
pub mod reader;
pub mod record;
pub mod resolver;
pub mod wire;
pub mod writer;
