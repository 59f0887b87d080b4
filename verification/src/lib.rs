//! Typed representations of HTTP header fields.
//!
//! A header field arrives from the surrounding store as an ordered sequence of
//! raw byte lines, all sharing one header name. This crate turns such a raw
//! line set into a strongly typed value and renders a typed value back to its
//! canonical single-line wire text. Two exemplar fields are provided: a scalar
//! byte-count header ([`content_length::ContentLength`]) and a token-list
//! encoding-chain header ([`transfer_encoding::TransferEncoding`]).

pub mod content_length;
pub mod decimal;
pub mod header;
pub mod transfer_encoding;
pub mod util;
