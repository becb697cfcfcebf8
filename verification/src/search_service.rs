//! The search service: retrieval answers, the search pipeline's decisions, its
//! configuration and its errors.
pub mod retrieval;
pub mod pipeline;
pub mod config;
pub mod errors;
