//! Encoding and decoding of DNS wire-format messages.
//!
//! The builder turns a domain name and a record type into a query message; the
//! parser turns a received message into a header and its four sections. Every
//! read is bounds-checked and every chain of compression pointers is tracked, so
//! malformed or hostile input yields a [`DnsError`] rather than a panic or
//! unbounded work.
pub mod error;
pub mod wire;
pub mod name;
pub mod query;
pub mod parse;
pub mod laws;

pub use error::DnsError;

pub use parse::{decode_name, decode_name_simple, ip_to_string, parse_header, parse_question, parse_record, DNSPacket, DNSRecord};
pub use query::{build_query, build_query_with_id, encode_dns_name, DNSHeader, CLASS_IN, TYPE_A};
