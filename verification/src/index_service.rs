//! The indexing service: chunking, its configuration and its errors.
pub mod chunker;
pub mod config;
pub mod errors;
