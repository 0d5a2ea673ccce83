//! Wire/text codec and authoritative record storage core of a DNS nameserver
//! library.
//!
//! The crate converts between raw protocol bytes (and master-file zone text)
//! and a typed resource-record model, and answers structured queries against
//! an in-memory zone: bounds-checked wire cursors, a per-record-type codec
//! registry, a master-file lexer and parser, and an authority store with
//! DNS lookup semantics (CNAME indirection, unique SOA, case-insensitive
//! names).

pub mod authority;
pub mod binary;
pub mod error;
pub mod lexer;
pub mod name;
pub mod parser;
pub mod rdata;
pub mod record;
pub mod rtype;
pub mod text;
