use chat_search::index_service::errors::AppError as IndexError;
use chat_search::search_service::errors::AppError as SearchError;
use chat_search::text::u16_to_decimal;

#[test]
fn index_error_messages() {
    assert_eq!(IndexError::SparseEmbedding("boom".into()).message(), "sparse embedding failed: boom");
    assert_eq!(IndexError::Internal("x".into()).message(), "internal error: x");
    assert_eq!(IndexError::Internal("x".into()).status_code(), 500);
}

#[test]
fn search_error_messages() {
    assert_eq!(SearchError::Qdrant("down".into()).message(), "qdrant error: down");
    assert_eq!(
        SearchError::Upstream { status: 503, body: "busy".into() }.message(),
        "upstream http error (503): busy"
    );
    assert_eq!(SearchError::Parse("p".into()).message(), "response parsing: p");
    assert_eq!(SearchError::Sparse("s".into()).message(), "sparse embedding failed: s");
    assert_eq!(SearchError::Internal("i".into()).message(), "internal: i");
    assert_eq!(SearchError::Upstream { status: 0, body: String::new() }.status_code(), 500);
}

#[test]
fn decimal_rendering() {
    for n in [0u16, 7, 10, 99, 500, 65535] {
        assert_eq!(u16_to_decimal(n), n.to_string());
    }
}
