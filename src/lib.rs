//! The application-protocol core of a single-connection HTTP server: an
//! incremental request parser, a per-connection request state machine, a path
//! router and a response builder with its wire serialization.

pub mod chunking;
pub mod connection;
pub mod logger;
pub mod parser;
pub mod request;
pub mod response;
pub mod routes;
pub mod status;
pub mod string_map;
pub mod text;
