//! Decoder for Smart Message Language (SML) telegrams emitted by smart meters.
//!
//! The byte stream is cut into frames by [`transport::SMLMessageBuilder`], each
//! frame body is decoded by [`parser::parse_body`], and
//! [`message_stream::feed_chunk`] ties both together for a driver that reads
//! the bytes from a device.

pub mod domain;
pub mod message_stream;
pub mod obis;
pub mod parser;
pub mod transport;
