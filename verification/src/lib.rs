//! A codec for the DNS message wire format, with what a resolver's front
//! end needs around it.
//!
//! Decoding turns a byte buffer into a structured message (header, questions
//! and three record sections); encoding turns a structured message back into
//! bytes. Every decoder is specified by a mathematical function over
//! `Seq<u8>`, and the encoders and decoders are proved to be inverse to each
//! other on valid values. Decoding follows compression pointers, but only a
//! bounded number of them, so that it ends on every buffer.
//!
//! - [`cursor`]: a read position in a buffer and big-endian integers.
//! - [`dns_components`]: names, the header, questions, records, messages.
//! - [`alias_table`]: the answers of a message by name, and the walk from a
//!   hostname along its aliases to its addresses.
//! - [`request_builder`], [`response_parser`]: the bytes of a query, and the
//!   addresses in a response.
//! - [`ip_locator`]: the report on where an address is located.
//! - [`error`]: the ways in which all this can fail.

pub mod error;
pub mod cursor;
pub mod dns_components;
pub mod alias_table;
pub mod request_builder;
pub mod response_parser;
pub mod ip_locator;
