//! Live network telemetry: parsers for the kernel's interface counter and TCP
//! connection tables, a rate engine with bounded histories and running statistics,
//! a non-blocking reverse-name cache, and a connection filter.

pub mod filter;
pub mod hostname;
pub mod models;
pub mod parser;
pub mod rates;
pub mod text;
