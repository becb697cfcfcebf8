use chat_search::index_service::config::{Config as IndexConfig, ConfigError as IndexConfigError};
use chat_search::search_service::config::{Config as SearchConfig, ConfigError as SearchConfigError};
use chat_search::text::parse_u16_str;

fn vars(pairs: &[(&str, &str)]) -> Vec<(String, String)> {
    pairs.iter().map(|(k, v)| (k.to_string(), v.to_string())).collect()
}

#[test]
fn defaults_when_env_missing() {
    let c = IndexConfig::from_vars(&vars(&[])).unwrap();
    assert_eq!(c.host, "0.0.0.0");
    assert_eq!(c.port, 8080);
    assert_eq!(std::path::PathBuf::from(c.model_dir), std::path::PathBuf::from("/app/models"));
}

fn set_required() -> Vec<(&'static str, &'static str)> {
    vec![
        ("API_KEY", "k"),
        ("EMBEDDINGS_DENSE_URL", "http://d"),
        ("RERANKER_URL", "http://r"),
        ("QDRANT_URL", "http://q"),
        ("QDRANT_COLLECTION_NAME", "c"),
    ]
}

#[test]
fn parses_required_and_defaults() {
    let c = SearchConfig::from_vars(&vars(&set_required())).unwrap();
    assert_eq!(c.dense_vec_name, "dense");
    assert_eq!(c.sparse_vec_name, "sparse");
    assert_eq!(c.port, 8080);
    assert_eq!(c.api_key, "k");
    assert_eq!(c.collection, "c");
    assert_eq!(c.model_dir, "/app/models");
}

#[test]
fn index_settings_are_read() {
    let c = IndexConfig::from_vars(&vars(&[("HOST", "127.0.0.1"), ("PORT", "+0081"), ("MODEL_DIR", "/m")])).unwrap();
    assert_eq!(c.host, "127.0.0.1");
    assert_eq!(c.port, 81);
    assert_eq!(c.model_dir, "/m");
}

#[test]
fn bad_port_is_refused() {
    let e = IndexConfig::from_vars(&vars(&[("PORT", "65536")])).unwrap_err();
    assert_eq!(e, IndexConfigError::InvalidPort);
    assert_eq!(e.message(), "PORT must be a u16");
    let mut required = set_required();
    required.push(("PORT", "http"));
    let e = SearchConfig::from_vars(&vars(&required)).unwrap_err();
    assert!(matches!(e, SearchConfigError::InvalidPort));
    assert_eq!(e.message(), "PORT must be u16");
}

#[test]
fn first_missing_variable_is_named() {
    let e = SearchConfig::from_vars(&vars(&[("API_KEY", "k"), ("QDRANT_URL", "q")])).unwrap_err();
    match &e {
        SearchConfigError::Missing(k) => assert_eq!(k, "EMBEDDINGS_DENSE_URL"),
        other => panic!("wrong error: {other:?}"),
    }
    assert_eq!(e.message(), "EMBEDDINGS_DENSE_URL not set");
}

#[test]
fn port_text_parses_like_u16() {
    assert_eq!(parse_u16_str("8080"), Some(8080));
    assert_eq!(parse_u16_str("+1"), Some(1));
    assert_eq!(parse_u16_str("65535"), Some(65535));
    assert_eq!(parse_u16_str("0007"), Some(7));
    assert_eq!(parse_u16_str("65536"), None);
    assert_eq!(parse_u16_str(""), None);
    assert_eq!(parse_u16_str("+"), None);
    assert_eq!(parse_u16_str("-1"), None);
    assert_eq!(parse_u16_str(" 80"), None);
    assert_eq!(parse_u16_str("8a"), None);
    for s in ["0", "80", "+443", "1000000", "12x", "٣"] {
        assert_eq!(parse_u16_str(s), s.parse::<u16>().ok(), "{s}");
    }
}
