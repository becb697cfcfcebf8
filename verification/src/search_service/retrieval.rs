//! Reading the answers of the dense embedding service, the reranker and the
//! vector store.
pub mod dense;
pub mod rerank;
pub mod qdrant;
pub mod status;
