# chat_search

Indexing and search over chat messages, as two HTTP services.

- `src/` is the verified library: the chunking of messages into index entries
  (`index_service::chunker`), the reading of the answers of the embedding
  service, the reranker and the vector store (`search_service::retrieval`), the
  steps of a search and the assembly of its answer (`search_service::pipeline`),
  the services' settings and errors, and the byte stream behind the
  development stand-in embedding (`mock_embedding`).
- `app/` holds the programs around it: the HTTP servers and handlers, the calls
  to the embedding services, the reranker and Qdrant, the sparse model, the JSON
  forms of the data, and the development stand-ins. `app/main.rs` picks the
  program from its first argument (`index-service`, `search-service`,
  `mock-dense`, `mock-rerank`, `bake-sparse`).
- `tests/` exercises the library on concrete values.
