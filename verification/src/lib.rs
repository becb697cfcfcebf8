//! Indexing and search over chat messages: chunking of messages for the index,
//! and the decisions of hybrid retrieval (query choice, rerank order, result
//! assembly).
pub mod index_service;
pub mod json;
pub mod mock_embedding;
pub mod search_service;
pub mod settings;
pub mod shared;
pub mod text;
