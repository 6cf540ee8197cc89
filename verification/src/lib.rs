//! A minimal HTTP/1.1 server library: a request/response codec and a
//! path-routing trie, with verified parsing, serialization and matching.
//!
//! Text on the wire is handled as raw bytes throughout; the connection
//! acceptor that feeds bytes in and writes bytes out lives outside this
//! library.

pub mod bytes;
pub mod http;
pub mod kv;
pub mod router;
pub mod laws;
pub mod server;
